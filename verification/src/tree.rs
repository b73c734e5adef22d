//! The tree: the active chunks, and the staged update that moves them toward the nodes
//! that a level-of-detail policy asks for.

use crate::arena::{Arena, Container};
use crate::coords::{CoordVec, LodVec};
use crate::integer::ReasonableIntegerLike;
use crate::desired::lemma_desired_depth;
use crate::refine::{
    all_wf, depth_fits, gather, lemma_root_contains, matches_under, refine, views, wanted,
};
use crate::slots::{
    active_map, compact, distinct_keys, filled, holds, lemma_active_at, same_keys, slot_of, Slot,
};
use vstd::prelude::*;

verus! {

/// Where the tree stands in an update.
#[derive(Debug, Clone, Copy, PartialEq, Eq, Structural)]
pub enum Stage {
    /// No update is under way.
    Idle,
    /// The changes have been worked out and not yet applied.
    Prepared,
    /// The changes have been applied and the update not yet closed.
    Applied,
}

/// Why the tree refused a call.
#[derive(Debug, Clone, Copy, PartialEq, Eq, Structural)]
pub enum TreeError {
    /// The step does not follow the step before it.
    OutOfOrder,
    /// The list has no entry of that number.
    NoSuchEntry,
}

/// What a pending container stands for.
pub open spec fn slot_of_container<const N: usize, C, DT: ReasonableIntegerLike>(
    c: Container<N, C, DT>,
) -> Slot<CoordVec<N, DT>, C> {
    Slot { key: c.position, value: c.chunk }
}

/// Some entry of the list is for the position `c`.
pub open spec fn lists<K, V>(list: Seq<Slot<K, V>>, c: K) -> bool {
    exists|i: int| 0 <= i < list.len() && (#[trigger] list[i]).key == c
}

/// No two entries of the list are for one position.
pub open spec fn listed_once<K, V>(list: Seq<Slot<K, V>>) -> bool {
    forall|i: int, j: int|
        0 <= i < list.len() && 0 <= j < list.len() && i != j ==> (#[trigger] list[i]).key != (
        #[trigger] list[j]).key
}

/// The position `c` is one of those leaving, and marked to be taken out.
pub open spec fn evicted<K>(leaving: Seq<K>, marked: Seq<bool>, c: K) -> bool {
    exists|i: int|
        0 <= i < leaving.len() && i < marked.len() && (#[trigger] leaving[i]) == c && marked[i]
}

/// Every position that is active or asked for is in exactly one part of the difference:
/// it stays, it arrives, or it leaves.
pub proof fn lemma_partition<K, V>(
    current: Set<K>,
    desired: Set<K>,
    pending: Seq<Slot<K, V>>,
    leaving: Seq<K>,
    c: K,
)
    requires
        forall|k: K| lists(pending, k) <==> desired.contains(k) && !current.contains(k),
        forall|k: K| leaving.contains(k) <==> current.contains(k) && !desired.contains(k),
        current.contains(c) || desired.contains(c),
    ensures
        (current.contains(c) && desired.contains(c)) || lists(pending, c) || leaving.contains(c),
        !((current.contains(c) && desired.contains(c)) && lists(pending, c)),
        !((current.contains(c) && desired.contains(c)) && leaving.contains(c)),
        !(lists(pending, c) && leaving.contains(c)),
{
}

/// Once the difference is applied, the active positions are those asked for and those
/// that were leaving and kept; where nothing was kept, they are those asked for.
pub proof fn lemma_applied<K, V>(
    current: Set<K>,
    applied: Set<K>,
    desired: Set<K>,
    pending: Seq<Slot<K, V>>,
    leaving: Seq<K>,
    marked: Seq<bool>,
)
    requires
        marked.len() == leaving.len(),
        forall|k: K| lists(pending, k) <==> desired.contains(k) && !current.contains(k),
        forall|k: K| leaving.contains(k) <==> current.contains(k) && !desired.contains(k),
        forall|k: K|
            applied.contains(k) <==> (current.contains(k) && !evicted(leaving, marked, k)) || lists(
                pending,
                k,
            ),
    ensures
        forall|k: K|
            applied.contains(k) <==> desired.contains(k) || (leaving.contains(k) && !evicted(
                leaving,
                marked,
                k,
            )),
        (forall|i: int| 0 <= i < marked.len() ==> marked[i]) ==> applied == desired,
{
    assert forall|k: K|
        applied.contains(k) <==> desired.contains(k) || (leaving.contains(k) && !evicted(
            leaving,
            marked,
            k,
        )) by {
        if evicted(leaving, marked, k) {
            let i = choose|i: int|
                0 <= i < leaving.len() && i < marked.len() && (#[trigger] leaving[i]) == k
                    && marked[i];
            assert(leaving.contains(k));
        }
    }
    if forall|i: int| 0 <= i < marked.len() ==> marked[i] {
        assert forall|k: K| applied.contains(k) <==> desired.contains(k) by {
            if leaving.contains(k) {
                let i = choose|i: int| 0 <= i < leaving.len() && leaving[i] == k;
                assert(leaving[i] == k && marked[i]);
                assert(evicted(leaving, marked, k));
            }
        }
        assert(applied =~= desired);
    }
}

/// One of the first `count` positions that are leaving is `c`, and marked to be taken out.
pub open spec fn evicted_first<K>(leaving: Seq<K>, marked: Seq<bool>, count: int, c: K) -> bool {
    exists|i: int|
        0 <= i < count && i < leaving.len() && i < marked.len() && (#[trigger] leaving[i]) == c
            && marked[i]
}

/// Some container of the list is for the position `c`.
pub open spec fn has_position<const N: usize, C, DT: ReasonableIntegerLike>(
    list: Seq<Container<N, C, DT>>,
    c: CoordVec<N, DT>,
) -> bool {
    exists|i: int| 0 <= i < list.len() && (#[trigger] list[i]).position == c
}

/// The containers are those of the positions marked to be taken out, each once, with the
/// chunk that `chunks` holds for it.
pub open spec fn taken_out<const N: usize, C, DT: ReasonableIntegerLike>(
    out: Seq<Container<N, C, DT>>,
    chunks: Map<CoordVec<N, DT>, C>,
    leaving: Seq<CoordVec<N, DT>>,
    marked: Seq<bool>,
) -> bool {
    &&& forall|k: int|
        0 <= k < out.len() ==> {
            &&& evicted(leaving, marked, (#[trigger] out[k]).position)
            &&& chunks.contains_key(out[k].position)
            &&& out[k].chunk == chunks[out[k].position]
        }
    &&& forall|a: int, b: int|
        0 <= a < out.len() && 0 <= b < out.len() && a != b ==> (#[trigger] out[a]).position != (
        #[trigger] out[b]).position
    &&& forall|c: CoordVec<N, DT>| evicted(leaving, marked, c) ==> has_position(out, c)
}

/// Every slot of `before` that holds a position which is not taken out is the same slot
/// of `after`.
pub open spec fn kept_in_place<K, V>(
    before: Seq<Option<Slot<K, V>>>,
    after: Seq<Option<Slot<K, V>>>,
    leaving: Seq<K>,
    marked: Seq<bool>,
) -> bool {
    &&& before.len() <= after.len()
    &&& forall|i: int|
        0 <= i < before.len() && (#[trigger] before[i]) is Some && !evicted(
            leaving,
            marked,
            before[i]->0.key,
        ) ==> after[i] == before[i]
}

/// Takes out of `chunks` the chunk of every position of `leaving` that is marked.
fn take_out<const N: usize, C, DT: ReasonableIntegerLike>(
    chunks: &mut Arena<N, C, DT>,
    leaving: &Vec<CoordVec<N, DT>>,
    marks: &Vec<bool>,
) -> (out: Vec<Container<N, C, DT>>)
    requires
        old(chunks).wf(),
        all_wf(leaving@),
        leaving@.no_duplicates(),
        marks@.len() == leaving@.len(),
        forall|i: int| 0 <= i < leaving@.len() ==> old(chunks)@.contains_key(#[trigger] leaving@[i]),
    ensures
        final(chunks).wf(),
        forall|c: CoordVec<N, DT>| #[trigger]
            final(chunks)@.contains_key(c) <==> old(chunks)@.contains_key(c) && !evicted(
                leaving@,
                marks@,
                c,
            ),
        forall|c: CoordVec<N, DT>| #[trigger]
            final(chunks)@.contains_key(c) ==> final(chunks)@[c] == old(chunks)@[c],
        taken_out(out@, old(chunks)@, leaving@, marks@),
        final(chunks).entries().len() == old(chunks).entries().len(),
        kept_in_place(old(chunks).entries(), final(chunks).entries(), leaving@, marks@),
{
    let ghost before = chunks@;
    let ghost slots = chunks.entries();
    let mut out: Vec<Container<N, C, DT>> = Vec::new();
    let mut i: usize = 0;
    while i < leaving.len()
        invariant
            i <= leaving.len(),
            chunks.wf(),
            chunks.entries().len() == slots.len(),
            forall|s: int|
                0 <= s < slots.len() && (#[trigger] slots[s]) is Some && !evicted_first(
                    leaving@,
                    marks@,
                    i as int,
                    slots[s]->0.key,
                ) ==> chunks.entries()[s] == slots[s],
            all_wf(leaving@),
            leaving@.no_duplicates(),
            marks@.len() == leaving@.len(),
            forall|t: int| 0 <= t < leaving@.len() ==> before.contains_key(#[trigger] leaving@[t]),
            forall|c: CoordVec<N, DT>| #[trigger]
                chunks@.contains_key(c) <==> before.contains_key(c) && !evicted_first(
                    leaving@,
                    marks@,
                    i as int,
                    c,
                ),
            forall|c: CoordVec<N, DT>| #[trigger]
                chunks@.contains_key(c) ==> chunks@[c] == before[c],
            forall|k: int|
                0 <= k < out@.len() ==> {
                    &&& evicted_first(leaving@, marks@, i as int, (#[trigger] out@[k]).position)
                    &&& before.contains_key(out@[k].position)
                    &&& out@[k].chunk == before[out@[k].position]
                },
            forall|a: int, b: int|
                0 <= a < out@.len() && 0 <= b < out@.len() && a != b ==> (
                #[trigger] out@[a]).position != (#[trigger] out@[b]).position,
            forall|c: CoordVec<N, DT>|
                evicted_first(leaving@, marks@, i as int, c) ==> has_position(out@, c),
        decreases leaving.len() - i,
    {
        let ghost held = chunks@;
        let ghost held_slots = chunks.entries();
        let ghost out_before = out@;
        let position = leaving[i];
        let marked = marks[i];
        proof {
            chunks.lemma_wf();
        }
        assert(position.wf());
        proof {
            if evicted_first(leaving@, marks@, i as int, position) {
                let t = choose|t: int|
                    0 <= t < i && t < leaving@.len() && t < marks@.len() && (
                    #[trigger] leaving@[t]) == position && marks@[t];
                assert(leaving@[t] == leaving@[i as int]);
            }
            assert(held.contains_key(position));
        }
        if marked {
            match chunks.remove(position) {
                Some(chunk) => {
                    out.push(Container { chunk, position });
                },
                None => {
                    assert(false);
                },
            }
        }
        proof {
            assert forall|c: CoordVec<N, DT>|
                evicted_first(leaving@, marks@, i + 1, c) <==> evicted_first(
                    leaving@,
                    marks@,
                    i as int,
                    c,
                ) || (c == position && marked) by {
                if evicted_first(leaving@, marks@, i + 1, c) {
                    let t = choose|t: int|
                        0 <= t < i + 1 && t < leaving@.len() && t < marks@.len() && (
                        #[trigger] leaving@[t]) == c && marks@[t];
                    if t < i {
                        assert(evicted_first(leaving@, marks@, i as int, c));
                    }
                }
                if evicted_first(leaving@, marks@, i as int, c) {
                    let t = choose|t: int|
                        0 <= t < i && t < leaving@.len() && t < marks@.len() && (
                        #[trigger] leaving@[t]) == c && marks@[t];
                    assert(0 <= t < i + 1 && leaving@[t] == c && marks@[t]);
                }
                if c == position && marked {
                    assert(leaving@[i as int] == c && marks@[i as int]);
                }
            }
            assert forall|s: int|
                0 <= s < slots.len() && (#[trigger] slots[s]) is Some && !evicted_first(
                    leaving@,
                    marks@,
                    i + 1,
                    slots[s]->0.key,
                ) implies chunks.entries()[s] == slots[s] by {
                assert(held_slots[s] == slots[s]);
                if marked {
                    let at = slot_of(held_slots, position);
                    assert(holds(held_slots, at, position));
                    assert(at != s);
                }
            }
            assert forall|k: int| 0 <= k < out@.len() implies evicted_first(
                leaving@,
                marks@,
                i + 1,
                (#[trigger] out@[k]).position,
            ) && before.contains_key(out@[k].position) && out@[k].chunk
                == before[out@[k].position] by {
                if k < out_before.len() {
                    assert(out@[k] == out_before[k]);
                }
            }
            assert forall|a: int, b: int|
                0 <= a < out@.len() && 0 <= b < out@.len() && a != b implies (
            #[trigger] out@[a]).position != (#[trigger] out@[b]).position by {
                if a < out_before.len() {
                    assert(out@[a] == out_before[a]);
                }
                if b < out_before.len() {
                    assert(out@[b] == out_before[b]);
                }
            }
            assert forall|c: CoordVec<N, DT>|
                evicted_first(leaving@, marks@, i + 1, c) implies has_position(out@, c) by {
                if evicted_first(leaving@, marks@, i as int, c) {
                    assert(has_position(out_before, c));
                    let k = choose|k: int|
                        0 <= k < out_before.len() && (#[trigger] out_before[k]).position == c;
                    assert(out@[k] == out_before[k]);
                } else {
                    assert(out@[out_before.len() as int].position == c);
                }
            }
        }
        i += 1;
    }
    proof {
        assert forall|c: CoordVec<N, DT>|
            evicted(leaving@, marks@, c) <==> evicted_first(
                leaving@,
                marks@,
                leaving@.len() as int,
                c,
            ) by {
            if evicted(leaving@, marks@, c) {
                let t = choose|t: int|
                    0 <= t < leaving@.len() && t < marks@.len() && (#[trigger] leaving@[t]) == c
                        && marks@[t];
                assert(0 <= t < leaving@.len() && leaving@[t] == c && marks@[t]);
            }
        }
    }
    out
}

/// Stores every container of `pending` in `chunks`.
fn put_in<const N: usize, C, DT: ReasonableIntegerLike>(
    chunks: &mut Arena<N, C, DT>,
    pending: Vec<Container<N, C, DT>>,
)
    requires
        old(chunks).wf(),
        forall|i: int|
            0 <= i < pending@.len() ==> (#[trigger] pending@[i]).position.wf()
                && !old(chunks)@.contains_key(pending@[i].position),
        forall|a: int, b: int|
            0 <= a < pending@.len() && 0 <= b < pending@.len() && a != b ==> (
            #[trigger] pending@[a]).position != (#[trigger] pending@[b]).position,
    ensures
        final(chunks).wf(),
        forall|c: CoordVec<N, DT>| #[trigger]
            final(chunks)@.contains_key(c) <==> old(chunks)@.contains_key(c) || has_position(
                pending@,
                c,
            ),
        forall|c: CoordVec<N, DT>| #[trigger]
            old(chunks)@.contains_key(c) ==> final(chunks)@[c] == old(chunks)@[c],
        forall|i: int|
            0 <= i < pending@.len() ==> final(chunks)@[(#[trigger] pending@[i]).position]
                == pending@[i].chunk,
        old(chunks).entries().len() <= final(chunks).entries().len(),
        forall|s: int|
            0 <= s < old(chunks).entries().len() && (#[trigger] old(chunks).entries()[s]) is Some
                ==> final(chunks).entries()[s] == old(chunks).entries()[s],
{
    let ghost before = chunks@;
    let ghost slots = chunks.entries();
    let ghost all = pending@;
    let mut rest = pending;
    loop
        invariant
            chunks.wf(),
            slots.len() <= chunks.entries().len(),
            forall|s: int|
                0 <= s < slots.len() && (#[trigger] slots[s]) is Some ==> chunks.entries()[s]
                    == slots[s],
            rest@.len() <= all.len(),
            rest@ == all.take(rest@.len() as int),
            forall|i: int|
                0 <= i < all.len() ==> (#[trigger] all[i]).position.wf() && !before.contains_key(
                    all[i].position,
                ),
            forall|a: int, b: int|
                0 <= a < all.len() && 0 <= b < all.len() && a != b ==> (#[trigger] all[a]).position
                    != (#[trigger] all[b]).position,
            forall|c: CoordVec<N, DT>|
                chunks@.contains_key(c) <==> before.contains_key(c) || exists|i: int|
                    rest@.len() <= i < all.len() && (#[trigger] all[i]).position == c,
            forall|c: CoordVec<N, DT>| #[trigger]
                before.contains_key(c) ==> chunks@[c] == before[c],
            forall|i: int|
                rest@.len() <= i < all.len() ==> chunks@[(#[trigger] all[i]).position]
                    == all[i].chunk,
        ensures
            chunks.wf(),
            rest@.len() == 0,
            slots.len() <= chunks.entries().len(),
            forall|s: int|
                0 <= s < slots.len() && (#[trigger] slots[s]) is Some ==> chunks.entries()[s]
                    == slots[s],
            forall|c: CoordVec<N, DT>|
                chunks@.contains_key(c) <==> before.contains_key(c) || exists|i: int|
                    0 <= i < all.len() && (#[trigger] all[i]).position == c,
            forall|c: CoordVec<N, DT>| #[trigger]
                before.contains_key(c) ==> chunks@[c] == before[c],
            forall|i: int|
                0 <= i < all.len() ==> chunks@[(#[trigger] all[i]).position] == all[i].chunk,
        decreases rest@.len(),
    {
        let ghost held = chunks@;
        let ghost n = rest@.len() as int;
        match rest.pop() {
            Some(container) => {
                let position = container.position;
                let chunk = container.chunk;
                proof {
                    assert(container == all[n - 1]);
                    assert(rest@ =~= all.take(n - 1));
                    if held.contains_key(position) {
                        let i = choose|i: int|
                            n <= i < all.len() && (#[trigger] all[i]).position == position;
                        assert(all[i].position == all[n - 1].position);
                    }
                }
                let ghost held_slots = chunks.entries();
                proof {
                    chunks.lemma_wf();
                }
                let stored = chunks.insert(position, chunk);
                proof {
                    assert(stored is Ok);
                    assert forall|s: int|
                        0 <= s < slots.len() && (#[trigger] slots[s]) is Some implies chunks.entries()[s]
                        == slots[s] by {
                        assert(held_slots[s] == slots[s]);
                    }
                    assert forall|c: CoordVec<N, DT>|
                        chunks@.contains_key(c) <==> before.contains_key(c) || exists|i: int|
                            n - 1 <= i < all.len() && (#[trigger] all[i]).position == c by {
                        if held.contains_key(c) && !before.contains_key(c) {
                            let i = choose|i: int|
                                n <= i < all.len() && (#[trigger] all[i]).position == c;
                            assert(n - 1 <= i < all.len() && all[i].position == c);
                        }
                        if c == position {
                            assert(n - 1 <= n - 1 < all.len() && all[n - 1].position == c);
                        }
                        if exists|i: int|
                            n - 1 <= i < all.len() && (#[trigger] all[i]).position == c {
                            let i = choose|i: int|
                                n - 1 <= i < all.len() && (#[trigger] all[i]).position == c;
                            if i >= n {
                                assert(held.contains_key(c));
                            }
                        }
                    }
                    assert forall|i: int| n - 1 <= i < all.len() implies chunks@[(
                    #[trigger] all[i]).position] == all[i].chunk by {
                        if i >= n {
                            assert(held[all[i].position] == all[i].chunk);
                            assert(all[i].position != all[n - 1].position);
                        }
                    }
                }
            },
            None => {
                break ;
            },
        }
    }
}

/// Hands the chunk of every position of `places` to `f` and stores what `f` gives back.
fn apply_at<const N: usize, C, DT: ReasonableIntegerLike, F: Fn(CoordVec<N, DT>, C) -> C>(
    chunks: &mut Arena<N, C, DT>,
    places: &Vec<CoordVec<N, DT>>,
    f: F,
)
    requires
        old(chunks).wf(),
        all_wf(places@),
        places@.no_duplicates(),
        forall|t: int| 0 <= t < places@.len() ==> old(chunks)@.contains_key(#[trigger] places@[t]),
        forall|p: CoordVec<N, DT>, c: C| call_requires(f, (p, c)),
    ensures
        final(chunks).wf(),
        same_keys(final(chunks).entries(), old(chunks).entries()),
        forall|c: CoordVec<N, DT>| #[trigger]
            final(chunks)@.contains_key(c) <==> old(chunks)@.contains_key(c),
        forall|c: CoordVec<N, DT>|
            old(chunks)@.contains_key(c) && !places@.contains(c) ==> #[trigger] final(chunks)@[c]
                == old(chunks)@[c],
        forall|t: int|
            0 <= t < places@.len() ==> call_ensures(
                f,
                (#[trigger] places@[t], old(chunks)@[places@[t]]),
                final(chunks)@[places@[t]],
            ),
{
    let ghost before = chunks@;
    let ghost slots = chunks.entries();
    let ghost vacant = chunks.vacant();
    let mut k: usize = 0;
    while k < places.len()
        invariant
            k <= places.len(),
            chunks.wf(),
            same_keys(chunks.entries(), slots),
            chunks.vacant() == vacant,
            all_wf(places@),
            places@.no_duplicates(),
            forall|p: CoordVec<N, DT>, c: C| call_requires(f, (p, c)),
            forall|c: CoordVec<N, DT>| #[trigger] chunks@.contains_key(c) <==> before.contains_key(c),
            forall|t: int| 0 <= t < places@.len() ==> before.contains_key(#[trigger] places@[t]),
            forall|c: CoordVec<N, DT>|
                before.contains_key(c) && !places@.take(k as int).contains(c) ==> #[trigger] chunks@[c]
                    == before[c],
            forall|t: int|
                0 <= t < k ==> call_ensures(
                    f,
                    (#[trigger] places@[t], before[places@[t]]),
                    chunks@[places@[t]],
                ),
        decreases places.len() - k,
    {
        let place = places[k];
        let ghost held = chunks@;
        let ghost held_slots = chunks.entries();
        proof {
            assert(place.wf());
            assert(before.contains_key(place));
            if places@.take(k as int).contains(place) {
                let t = choose|t: int|
                    0 <= t < places@.take(k as int).len() && places@.take(k as int)[t] == place;
                assert(places@[t] == places@[k as int]);
            }
            assert(held[place] == before[place]);
        }
        match chunks.remove(place) {
            Some(chunk) => {
                let ghost at = slot_of(held_slots, place);
                proof {
                    chunks.lemma_wf();
                    assert(holds(held_slots, at, place));
                    assert(chunks.vacant().last() == at as usize);
                    assert(chunks.vacant().drop_last() =~= vacant);
                }
                let fresh = f(place, chunk);
                let stored = chunks.insert(place, fresh);
                proof {
                    assert(stored is Ok);
                    assert(chunks.entries() =~= held_slots.update(at, filled(place, fresh)));
                }
            },
            None => {
                assert(false);
            },
        }
        proof {
            assert forall|c: CoordVec<N, DT>|
                before.contains_key(c) && !places@.take(k + 1).contains(c) implies #[trigger] chunks@[c]
                == before[c] by {
                if places@.take(k as int).contains(c) {
                    let t = choose|t: int|
                        0 <= t < places@.take(k as int).len() && places@.take(k as int)[t] == c;
                    assert(places@.take(k + 1)[t] == c);
                }
                assert(c != place) by {
                    if c == place {
                        assert(places@.take(k + 1)[k as int] == c);
                    }
                }
            }
            assert forall|t: int| 0 <= t < k + 1 implies call_ensures(
                f,
                (#[trigger] places@[t], before[places@[t]]),
                chunks@[places@[t]],
            ) by {
                if t < k {
                    assert(places@[t] != places@[k as int]);
                }
            }
        }
        k += 1;
    }
    proof {
        assert(places@.take(places@.len() as int) =~= places@);
    }
}

/// One of the first `count` slots holds the key `c`.
pub open spec fn in_first<K, V>(s: Seq<Option<Slot<K, V>>>, count: int, c: K) -> bool {
    exists|i: int| 0 <= i < count && holds(s, i, c)
}

/// The active positions of `from` that are not active in `other`, in the storage order of
/// `from`.
fn missing_from<const N: usize, A, B, DT: ReasonableIntegerLike>(
    from: &Arena<N, A, DT>,
    other: &Arena<N, B, DT>,
) -> (r: Vec<CoordVec<N, DT>>)
    requires
        from.wf(),
        other.wf(),
    ensures
        r@.no_duplicates(),
        all_wf(r@),
        forall|c: CoordVec<N, DT>|
            r@.contains(c) <==> from@.contains_key(c) && !other@.contains_key(c),
{
    let mut out: Vec<CoordVec<N, DT>> = Vec::new();
    let count = from.slot_count();
    let mut i: usize = 0;
    proof {
        from.lemma_wf();
    }
    while i < count
        invariant
            i <= count,
            count == from.entries().len(),
            from.wf(),
            other.wf(),
            distinct_keys(from.entries()),
            out@.no_duplicates(),
            all_wf(out@),
            forall|j: int|
                0 <= j < out@.len() ==> in_first(from.entries(), i as int, #[trigger] out@[j])
                    && !other@.contains_key(out@[j]),
            forall|c: CoordVec<N, DT>|
                in_first(from.entries(), i as int, c) && !other@.contains_key(c)
                    ==> out@.contains(c),
        decreases count - i,
    {
        let ghost before = out@;
        let mut add = false;
        let mut place = CoordVec::<N, DT>::root();
        match from.position_at(i) {
            Some(position) => {
                proof {
                    from.lemma_wf();
                    assert(from.entries()[i as int] is Some);
                    assert(position.wf());
                }
                if other.find(position).is_none() {
                    add = true;
                    place = position;
                }
            },
            None => {},
        }
        if add {
            out.push(place);
            proof {
                assert forall|a: int, b: int|
                    0 <= a < out@.len() && 0 <= b < out@.len() && a != b implies out@[a]
                    != out@[b] by {
                    let last = before.len() as int;
                    if a == last {
                        assert(in_first(from.entries(), i as int, before[b]));
                        let s = choose|s: int| 0 <= s < i && holds(from.entries(), s, before[b]);
                    } else if b == last {
                        assert(in_first(from.entries(), i as int, before[a]));
                        let s = choose|s: int| 0 <= s < i && holds(from.entries(), s, before[a]);
                    } else {
                        assert(out@[a] == before[a] && out@[b] == before[b]);
                    }
                }
            }
        }
        proof {
            assert forall|j: int| 0 <= j < out@.len() implies in_first(
                from.entries(),
                i + 1,
                #[trigger] out@[j],
            ) && !other@.contains_key(out@[j]) by {
                if j < before.len() {
                    assert(out@[j] == before[j]);
                    assert(in_first(from.entries(), i as int, before[j]));
                    let s = choose|s: int| 0 <= s < i && holds(from.entries(), s, before[j]);
                    assert(0 <= s < i + 1 && holds(from.entries(), s, out@[j]));
                } else {
                    assert(0 <= i < i + 1 && holds(from.entries(), i as int, out@[j]));
                }
            }
            assert forall|c: CoordVec<N, DT>|
                in_first(from.entries(), i + 1, c) && !other@.contains_key(c) implies out@.contains(
                c,
            ) by {
                let s = choose|s: int| 0 <= s < i + 1 && holds(from.entries(), s, c);
                if s < i {
                    assert(in_first(from.entries(), i as int, c));
                    assert(before.contains(c));
                    let a = choose|a: int| 0 <= a < before.len() && before[a] == c;
                    assert(out@[a] == c);
                } else {
                    assert(add);
                    assert(out@[before.len() as int] == c);
                }
            }
        }
        i += 1;
    }
    proof {
        assert forall|c: CoordVec<N, DT>|
            out@.contains(c) <==> from@.contains_key(c) && !other@.contains_key(c) by {
            if out@.contains(c) {
                let a = choose|a: int| 0 <= a < out@.len() && out@[a] == c;
                assert(in_first(from.entries(), count as int, out@[a]));
                let s = choose|s: int| 0 <= s < count && holds(from.entries(), s, c);
                assert(holds(from.entries(), s, c));
            }
            if from@.contains_key(c) && !other@.contains_key(c) {
                let s = slot_of(from.entries(), c);
                assert(holds(from.entries(), s, c));
                assert(in_first(from.entries(), count as int, c));
            }
        }
    }
    out
}

/// The active chunks of a tree with `2^N` children per node, and the state of its update.
pub struct Tree<const N: usize, C, DT = u8> where DT: ReasonableIntegerLike {
    chunks: Arena<N, C, DT>,
    desired: Arena<N, (), DT>,
    to_activate: Vec<Container<N, C, DT>>,
    to_deactivate: Vec<CoordVec<N, DT>>,
    evict: Vec<bool>,
    stage: Stage,
    deepest: u8,
}

/// A tree with four children per node.
pub type QuadTree<C, DT = u8> = Tree<2, C, DT>;

/// A tree with eight children per node.
pub type OctTree<C, DT = u8> = Tree<3, C, DT>;

impl<const N: usize, C, DT> View for Tree<N, C, DT> where DT: ReasonableIntegerLike {
    type V = Map<CoordVec<N, DT>, C>;

    /// The chunk of each active position.
    closed spec fn view(&self) -> Map<CoordVec<N, DT>, C> {
        self.chunks@
    }
}

impl<const N: usize, C, DT> Tree<N, C, DT> where DT: ReasonableIntegerLike {
    /// The storage slots in their order: each is empty or holds a position and its chunk.
    pub closed spec fn entries(&self) -> Seq<Option<Slot<CoordVec<N, DT>, C>>> {
        self.chunks.entries()
    }

    /// Where the tree stands in an update.
    pub closed spec fn stage(&self) -> Stage {
        self.stage
    }

    /// The positions that the update under way asks for.
    pub closed spec fn desired(&self) -> Set<CoordVec<N, DT>> {
        self.desired@.dom()
    }

    /// The chunks made for the positions that are to become active.
    pub closed spec fn pending(&self) -> Seq<Slot<CoordVec<N, DT>, C>> {
        self.to_activate@.map_values(|c: Container<N, C, DT>| slot_of_container(c))
    }

    /// The active positions that the update under way does not ask for.
    pub closed spec fn leaving(&self) -> Seq<CoordVec<N, DT>> {
        self.to_deactivate@
    }

    /// For each position that is leaving, whether its chunk is to be taken out.
    pub closed spec fn marked(&self) -> Seq<bool> {
        self.evict@
    }

    /// The storage and the lists of the update agree with the stage.
    pub closed spec fn wf(&self) -> bool {
        &&& self.chunks.wf()
        &&& self.desired.wf()
        &&& self.evict@.len() == self.to_deactivate@.len()
        &&& forall|i: int|
            0 <= i < self.to_activate@.len() ==> (#[trigger] self.to_activate@[i]).position.wf()
        &&& all_wf(self.to_deactivate@)
        &&& self.stage == Stage::Prepared ==> {
            &&& listed_once(self.pending())
            &&& forall|i: int|
                0 <= i < self.to_activate@.len() ==> !self.chunks@.contains_key(
                    (#[trigger] self.to_activate@[i]).position,
                )
            &&& self.to_deactivate@.no_duplicates()
            &&& forall|i: int|
                0 <= i < self.to_deactivate@.len() ==> self.chunks@.contains_key(
                    #[trigger] self.to_deactivate@[i],
                )
        }
        &&& self.stage != Stage::Prepared ==> self.to_activate@.len() == 0
        &&& self.stage == Stage::Idle ==> self.to_deactivate@.len() == 0
        &&& depth_fits::<DT>(self.deepest)
        &&& forall|c: CoordVec<N, DT>| #[trigger] self.chunks@.contains_key(c) ==> c.depth <= self.deepest
        &&& forall|i: int|
            0 <= i < self.to_activate@.len() ==> (#[trigger] self.to_activate@[i]).position.depth
                <= self.deepest
    }

    /// What a well-formed tree holds is well formed.
    pub proof fn lemma_wf(&self)
        requires
            self.wf(),
        ensures
            self@ == active_map(self.entries()),
            distinct_keys(self.entries()),
            forall|c: CoordVec<N, DT>| #[trigger] self@.contains_key(c) ==> c.wf(),
            self.marked().len() == self.leaving().len(),
            self.stage() != Stage::Prepared ==> self.pending().len() == 0,
            self.stage() == Stage::Idle ==> self.leaving().len() == 0,
    {
        self.chunks.lemma_wf();
    }

    /// A tree with no chunk, and no update under way.
    pub fn new() -> (r: Self)
        ensures
            r.wf(),
            r@ == Map::<CoordVec<N, DT>, C>::empty(),
            r.entries().len() == 0,
            r.stage() == Stage::Idle,
            r.desired() == Set::<CoordVec<N, DT>>::empty(),
            r.pending().len() == 0,
            r.leaving().len() == 0,
            r.marked().len() == 0,
    {
        let r = Tree {
            chunks: Arena::new(),
            desired: Arena::new(),
            to_activate: Vec::new(),
            to_deactivate: Vec::new(),
            evict: Vec::new(),
            stage: Stage::Idle,
            deepest: 0,
        };
        assert(r.desired() =~= Set::empty());
        r
    }

    /// A tree with no chunk, with room for `capacity` of them.
    pub fn with_capacity(capacity: usize) -> (r: Self)
        ensures
            r.wf(),
            r@ == Map::<CoordVec<N, DT>, C>::empty(),
            r.entries().len() == 0,
            r.stage() == Stage::Idle,
            r.desired() == Set::<CoordVec<N, DT>>::empty(),
            r.pending().len() == 0,
            r.leaving().len() == 0,
            r.marked().len() == 0,
    {
        let r = Tree {
            chunks: Arena::with_capacity(capacity),
            desired: Arena::new(),
            to_activate: Vec::new(),
            to_deactivate: Vec::new(),
            evict: Vec::new(),
            stage: Stage::Idle,
            deepest: 0,
        };
        assert(r.desired() =~= Set::empty());
        r
    }

    /// The chunk stored under `coord`, if the position is active.
    pub fn get_chunk_from_position(&self, coord: CoordVec<N, DT>) -> (r: Option<&C>)
        requires
            self.wf(),
            coord.wf(),
        ensures
            match r {
                Some(chunk) => self@.contains_key(coord) && *chunk == self@[coord],
                None => !self@.contains_key(coord),
            },
    {
        self.chunks.get(coord)
    }

    /// The chunk stored under `coord`, to be changed in place, if the position is active.
    pub fn get_chunk_from_position_mut(&mut self, coord: CoordVec<N, DT>) -> (r: Option<&mut C>)
        requires
            old(self).wf(),
            coord.wf(),
        ensures
            r is Some <==> old(self)@.contains_key(coord),
            r matches Some(chunk) ==> *chunk == old(self)@[coord],
            r matches Some(chunk) ==> (*final(self))@ == (*old(self))@.insert(coord, *final(chunk)),
            r is None ==> (*final(self))@ == (*old(self))@,
            final(self).wf(),
            final(self).stage() == old(self).stage(),
            final(self).desired() == old(self).desired(),
            final(self).pending() == old(self).pending(),
            final(self).leaving() == old(self).leaving(),
            final(self).marked() == old(self).marked(),
    {
        proof {
            let before = *self;
            assert forall|after: Self|
                #![trigger after.wf()]
                #![trigger after.stage()]
                before.same_but_chunks(after) implies after.wf() by {
                before.lemma_chunks_changed(after);
            }
        }
        self.chunks.get_mut(coord)
    }

    /// `after` differs from `self` at most in the chunks stored, not in their positions.
    spec fn same_but_chunks(self, after: Self) -> bool {
        &&& after.chunks.wf()
        &&& after.chunks@.dom() == self.chunks@.dom()
        &&& after.desired == self.desired
        &&& after.to_activate == self.to_activate
        &&& after.to_deactivate == self.to_deactivate
        &&& after.evict == self.evict
        &&& after.stage == self.stage
        &&& after.deepest == self.deepest
    }

    /// A tree that differs from a well-formed one only in the chunks stored is well formed.
    proof fn lemma_chunks_changed(self, after: Self)
        requires
            self.wf(),
            self.same_but_chunks(after),
        ensures
            after.wf(),
    {
        assert forall|i: int| 0 <= i < after.to_activate@.len() implies !after.chunks@.contains_key(
            (#[trigger] after.to_activate@[i]).position,
        ) || self.stage != Stage::Prepared by {
            if self.stage == Stage::Prepared {
                assert(!self.chunks@.dom().contains(self.to_activate@[i].position));
            }
        }
        assert forall|i: int| 0 <= i < after.to_deactivate@.len() implies after.chunks@.contains_key(
            #[trigger] after.to_deactivate@[i],
        ) || self.stage != Stage::Prepared by {
            if self.stage == Stage::Prepared {
                assert(self.chunks@.dom().contains(self.to_deactivate@[i]));
            }
        }
        assert forall|c: CoordVec<N, DT>| #[trigger] after.chunks@.contains_key(c) implies c.depth
            <= after.deepest by {
            assert(self.chunks@.dom().contains(c));
            assert(self.chunks@.contains_key(c));
        }
    }

    /// Moves the chunks to the front of the storage in their order, leaving no empty slot.
    pub fn defragment(&mut self)
        requires
            old(self).wf(),
        ensures
            final(self).wf(),
            final(self)@ == old(self)@,
            final(self).entries() == compact(old(self).entries()),
            final(self).stage() == old(self).stage(),
            final(self).desired() == old(self).desired(),
            final(self).pending() == old(self).pending(),
            final(self).leaving() == old(self).leaving(),
            final(self).marked() == old(self).marked(),
    {
        self.chunks.defragment();
    }

    /// Works out the nodes that the targets ask for and how they differ from the active
    /// ones, and makes a chunk for each node that is to become active. Nothing is stored
    /// yet. With no target nothing is asked for and nothing changes. Says whether anything
    /// is to change.
    pub fn prepare_update<F: Fn(CoordVec<N, DT>) -> C>(
        &mut self,
        targets: &[CoordVec<N, DT>],
        max_depth: u8,
        detail: u32,
        create: F,
    ) -> (r: Result<bool, TreeError>)
        requires
            old(self).wf(),
            N < usize::BITS,
            depth_fits::<DT>(max_depth),
            all_wf(targets@),
            forall|c: CoordVec<N, DT>| c.wf() ==> call_requires(create, (c,)),
        ensures
            final(self).wf(),
            final(self)@ == old(self)@,
            final(self).entries() == old(self).entries(),
            old(self).stage() != Stage::Idle ==> {
                &&& r == Err::<bool, TreeError>(TreeError::OutOfOrder)
                &&& final(self).stage() == old(self).stage()
                &&& final(self).desired() == old(self).desired()
                &&& final(self).pending() == old(self).pending()
                &&& final(self).leaving() == old(self).leaving()
                &&& final(self).marked() == old(self).marked()
            },
            old(self).stage() == Stage::Idle ==> {
                &&& final(self).stage() == Stage::Prepared
                &&& r == Ok::<bool, TreeError>(
                    final(self).pending().len() > 0 || final(self).leaving().len() > 0,
                )
                &&& final(self).marked().len() == final(self).leaving().len()
                &&& forall|i: int| 0 <= i < final(self).marked().len() ==> final(self).marked()[i]
                &&& listed_once(final(self).pending())
                &&& final(self).leaving().no_duplicates()
                &&& forall|i: int|
                    0 <= i < final(self).pending().len() ==> call_ensures(
                        create,
                        ((#[trigger] final(self).pending()[i]).key,),
                        final(self).pending()[i].value,
                    )
            },
            old(self).stage() == Stage::Idle && targets@.len() == 0 ==> {
                &&& final(self).desired() == Set::<CoordVec<N, DT>>::empty()
                &&& final(self).pending().len() == 0
                &&& final(self).leaving().len() == 0
            },
            old(self).stage() == Stage::Idle && targets@.len() > 0 ==> {
                &&& forall|c: CoordVec<N, DT>| #[trigger]
                    final(self).desired().contains(c) <==> wanted(c, targets@, max_depth, detail)
                &&& forall|c: CoordVec<N, DT>|
                    lists(final(self).pending(), c) <==> final(self).desired().contains(c)
                        && !old(self)@.contains_key(c)
                &&& forall|c: CoordVec<N, DT>|
                    final(self).leaving().contains(c) <==> old(self)@.contains_key(c)
                        && !final(self).desired().contains(c)
            },
    {
        match self.stage {
            Stage::Idle => {},
            _ => {
                return Err(TreeError::OutOfOrder);
            },
        }
        self.stage = Stage::Prepared;
        self.desired = Arena::new();
        assert(self.desired@.dom() =~= Set::<CoordVec<N, DT>>::empty());
        if targets.len() == 0 {
            assert(self.pending() =~= Seq::empty());
            return Ok(false);
        }
        let root = CoordVec::<N, DT>::root();
        refine(root, targets, max_depth, detail, &mut self.desired);
        proof {
            self.desired.lemma_wf();
            self.chunks.lemma_wf();
            assert forall|c: CoordVec<N, DT>| #[trigger]
                self.desired@.contains_key(c) <==> wanted(c, targets@, max_depth, detail) by {
                if wanted(c, targets@, max_depth, detail) {
                    lemma_root_contains(c@);
                }
            }
        }
        let arriving = missing_from(&self.desired, &self.chunks);
        let leaving = missing_from(&self.chunks, &self.desired);
        let mut made: Vec<Container<N, C, DT>> = Vec::new();
        let mut j: usize = 0;
        while j < arriving.len()
            invariant
                j <= arriving.len(),
                made@.len() == j,
                all_wf(arriving@),
                forall|c: CoordVec<N, DT>| c.wf() ==> call_requires(create, (c,)),
                forall|t: int|
                    0 <= t < j ==> (#[trigger] made@[t]).position == arriving@[t] && call_ensures(
                        create,
                        (arriving@[t],),
                        made@[t].chunk,
                    ),
            decreases arriving.len() - j,
        {
            let position = arriving[j];
            assert(position.wf());
            let chunk = create(position);
            made.push(Container { chunk, position });
            j += 1;
        }
        let mut marks: Vec<bool> = Vec::new();
        let mut k: usize = 0;
        while k < leaving.len()
            invariant
                k <= leaving.len(),
                marks@.len() == k,
                forall|t: int| 0 <= t < k ==> marks@[t],
            decreases leaving.len() - k,
        {
            marks.push(true);
            k += 1;
        }
        self.to_activate = made;
        self.to_deactivate = leaving;
        self.evict = marks;
        if max_depth > self.deepest {
            self.deepest = max_depth;
        }
        proof {
            assert forall|t: int| 0 <= t < self.to_activate@.len() implies (
            #[trigger] self.to_activate@[t]).position.depth <= self.deepest by {
                assert(self.to_activate@[t].position == arriving@[t]);
                assert(arriving@.contains(arriving@[t]));
                lemma_desired_depth(
                    arriving@[t]@,
                    views(targets@),
                    max_depth as nat,
                    detail as nat,
                );
            }
            let pending = self.pending();
            assert forall|t: int| 0 <= t < pending.len() implies (#[trigger] pending[t]).key
                == arriving@[t] && pending[t].value == self.to_activate@[t].chunk by {
                assert(pending[t] == slot_of_container(self.to_activate@[t]));
            }
            assert forall|c: CoordVec<N, DT>|
                lists(pending, c) <==> self.desired().contains(c) && !old(self)@.contains_key(c) by {
                if lists(pending, c) {
                    let t = choose|t: int| 0 <= t < pending.len() && (#[trigger] pending[t]).key == c;
                    assert(arriving@[t] == c);
                    assert(arriving@.contains(c));
                }
                if arriving@.contains(c) {
                    let t = choose|t: int| 0 <= t < arriving@.len() && arriving@[t] == c;
                    assert(pending[t].key == c);
                }
            }
            assert forall|t: int| 0 <= t < self.to_activate@.len() implies !self.chunks@.contains_key(
                (#[trigger] self.to_activate@[t]).position,
            ) && self.to_activate@[t].position.wf() by {
                assert(self.to_activate@[t].position == arriving@[t]);
                assert(arriving@.contains(arriving@[t]));
            }
            assert forall|t: int| 0 <= t < self.to_deactivate@.len() implies self.chunks@.contains_key(
                #[trigger] self.to_deactivate@[t],
            ) by {
                assert(self.to_deactivate@.contains(self.to_deactivate@[t]));
            }
        }
        Ok(self.to_activate.len() > 0 || self.to_deactivate.len() > 0)
    }

    /// Where the tree stands in an update.
    pub fn current_stage(&self) -> (r: Stage)
        ensures
            r == self.stage(),
    {
        self.stage
    }

    /// Says of entry `i` of the positions that are leaving whether its chunk is to be
    /// taken out when the update is applied. Every entry starts out marked.
    pub fn set_eviction(&mut self, i: usize, evict: bool) -> (r: Result<(), TreeError>)
        requires
            old(self).wf(),
        ensures
            final(self).wf(),
            final(self)@ == old(self)@,
            final(self).entries() == old(self).entries(),
            final(self).stage() == old(self).stage(),
            final(self).desired() == old(self).desired(),
            final(self).pending() == old(self).pending(),
            final(self).leaving() == old(self).leaving(),
            old(self).stage() != Stage::Prepared ==> r == Err::<(), TreeError>(
                TreeError::OutOfOrder,
            ) && final(self).marked() == old(self).marked(),
            old(self).stage() == Stage::Prepared && i >= old(self).leaving().len() ==> r == Err::<
                (),
                TreeError,
            >(TreeError::NoSuchEntry) && final(self).marked() == old(self).marked(),
            old(self).stage() == Stage::Prepared && i < old(self).leaving().len() ==> r is Ok
                && final(self).marked() == old(self).marked().update(i as int, evict),
    {
        match self.stage {
            Stage::Prepared => {},
            _ => {
                return Err(TreeError::OutOfOrder);
            },
        }
        if i >= self.evict.len() {
            return Err(TreeError::NoSuchEntry);
        }
        self.evict[i] = evict;
        Ok(())
    }

    /// Applies the prepared changes: takes out the chunks of the leaving positions that
    /// are marked, stores the chunks made for the arriving positions, and hands back what
    /// was taken out.
    pub fn do_update(&mut self) -> (r: Result<Vec<Container<N, C, DT>>, TreeError>)
        requires
            old(self).wf(),
        ensures
            final(self).wf(),
            final(self).desired() == old(self).desired(),
            final(self).leaving() == old(self).leaving(),
            final(self).marked() == old(self).marked(),
            old(self).stage() != Stage::Prepared ==> {
                &&& r == Err::<Vec<Container<N, C, DT>>, TreeError>(TreeError::OutOfOrder)
                &&& final(self)@ == old(self)@
                &&& final(self).entries() == old(self).entries()
                &&& final(self).stage() == old(self).stage()
                &&& final(self).pending() == old(self).pending()
            },
            old(self).stage() == Stage::Prepared ==> {
                &&& r is Ok
                &&& final(self).stage() == Stage::Applied
                &&& final(self).pending().len() == 0
                &&& taken_out(r->Ok_0@, old(self)@, old(self).leaving(), old(self).marked())
                &&& kept_in_place(
                    old(self).entries(),
                    final(self).entries(),
                    old(self).leaving(),
                    old(self).marked(),
                )
                &&& forall|c: CoordVec<N, DT>| #[trigger]
                    final(self)@.contains_key(c) <==> (old(self)@.contains_key(c) && !evicted(
                        old(self).leaving(),
                        old(self).marked(),
                        c,
                    )) || lists(old(self).pending(), c)
                &&& forall|c: CoordVec<N, DT>|
                    old(self)@.contains_key(c) && !evicted(
                        old(self).leaving(),
                        old(self).marked(),
                        c,
                    ) ==> #[trigger] final(self)@[c] == old(self)@[c]
                &&& forall|i: int|
                    0 <= i < old(self).pending().len() ==> final(self)@[(
                    #[trigger] old(self).pending()[i]).key] == old(self).pending()[i].value
            },
    {
        match self.stage {
            Stage::Prepared => {},
            _ => {
                return Err(TreeError::OutOfOrder);
            },
        }
        let ghost pending = self.pending();
        let ghost before = self.chunks@;
        let ghost slots = self.chunks.entries();
        let out = take_out(&mut self.chunks, &self.to_deactivate, &self.evict);
        let ghost between = self.chunks@;
        let ghost between_slots = self.chunks.entries();
        let mut arriving: Vec<Container<N, C, DT>> = Vec::new();
        std::mem::swap(&mut self.to_activate, &mut arriving);
        proof {
            assert(arriving@ == old(self).to_activate@);
            assert forall|i: int| 0 <= i < arriving@.len() implies (#[trigger] arriving@[i]).position.wf()
                && !between.contains_key(arriving@[i].position) by {
                assert(old(self).to_activate@[i].position.wf());
                assert(!before.contains_key(old(self).to_activate@[i].position));
            }
            assert forall|i: int| 0 <= i < arriving@.len() implies pending[i] == slot_of_container(
                #[trigger] arriving@[i],
            ) by {}
            assert forall|a: int, b: int|
                0 <= a < arriving@.len() && 0 <= b < arriving@.len() && a != b implies (
            #[trigger] arriving@[a]).position != (#[trigger] arriving@[b]).position by {
                assert(pending[a].key != pending[b].key);
            }
        }
        put_in(&mut self.chunks, arriving);
        self.stage = Stage::Applied;
        proof {
            assert(self.pending() =~= Seq::empty());
            assert forall|c: CoordVec<N, DT>|
                lists(pending, c) <==> has_position(arriving@, c) by {
                if lists(pending, c) {
                    let i = choose|i: int| 0 <= i < pending.len() && (#[trigger] pending[i]).key == c;
                    assert(arriving@[i].position == c);
                }
                if has_position(arriving@, c) {
                    let i = choose|i: int|
                        0 <= i < arriving@.len() && (#[trigger] arriving@[i]).position == c;
                    assert(pending[i].key == c);
                }
            }
            assert forall|i: int| 0 <= i < pending.len() implies self.chunks@[(
            #[trigger] pending[i]).key] == pending[i].value by {
                assert(pending[i] == slot_of_container(arriving@[i]));
            }
            assert forall|c: CoordVec<N, DT>| #[trigger]
                self.chunks@.contains_key(c) <==> (before.contains_key(c) && !evicted(
                    self.to_deactivate@,
                    self.evict@,
                    c,
                )) || lists(pending, c) by {
                assert(between.contains_key(c) <==> before.contains_key(c) && !evicted(
                    self.to_deactivate@,
                    self.evict@,
                    c,
                ));
                assert(lists(pending, c) <==> has_position(arriving@, c));
            }
            assert forall|c: CoordVec<N, DT>|
                before.contains_key(c) && !evicted(
                    self.to_deactivate@,
                    self.evict@,
                    c,
                ) implies #[trigger] self.chunks@[c]
                == before[c] by {
                assert(between.contains_key(c));
            }
            assert(taken_out(out@, before, self.to_deactivate@, self.evict@));
            assert forall|s: int|
                0 <= s < slots.len() && (#[trigger] slots[s]) is Some && !evicted(
                    self.to_deactivate@,
                    self.evict@,
                    slots[s]->0.key,
                ) implies self.chunks.entries()[s] == slots[s] by {
                assert(between_slots[s] == slots[s]);
            }
            assert forall|c: CoordVec<N, DT>| #[trigger] self.chunks@.contains_key(c) implies c.depth
                <= self.deepest by {
                if has_position(arriving@, c) {
                    let i = choose|i: int|
                        0 <= i < arriving@.len() && (#[trigger] arriving@[i]).position == c;
                    assert(old(self).to_activate@[i].position.depth <= self.deepest);
                } else {
                    assert(between.contains_key(c));
                    assert(before.contains_key(c));
                }
            }
        }
        Ok(out)
    }

    /// Closes the update: what was worked out for it is dropped, and the chunks stored are
    /// the active set for the next one.
    pub fn complete_update(&mut self) -> (r: Result<(), TreeError>)
        requires
            old(self).wf(),
        ensures
            final(self).wf(),
            final(self)@ == old(self)@,
            final(self).entries() == old(self).entries(),
            old(self).stage() != Stage::Applied ==> {
                &&& r == Err::<(), TreeError>(TreeError::OutOfOrder)
                &&& final(self).stage() == old(self).stage()
                &&& final(self).desired() == old(self).desired()
                &&& final(self).pending() == old(self).pending()
                &&& final(self).leaving() == old(self).leaving()
                &&& final(self).marked() == old(self).marked()
            },
            old(self).stage() == Stage::Applied ==> {
                &&& r is Ok
                &&& final(self).stage() == Stage::Idle
                &&& final(self).desired() == Set::<CoordVec<N, DT>>::empty()
                &&& final(self).pending().len() == 0
                &&& final(self).leaving().len() == 0
                &&& final(self).marked().len() == 0
            },
    {
        match self.stage {
            Stage::Applied => {},
            _ => {
                return Err(TreeError::OutOfOrder);
            },
        }
        self.desired = Arena::new();
        self.to_deactivate = Vec::new();
        self.evict = Vec::new();
        self.stage = Stage::Idle;
        assert(self.desired@.dom() =~= Set::<CoordVec<N, DT>>::empty());
        Ok(())
    }
    /// The positions that the update under way asks for, each once.
    pub fn iter_desired(&self) -> (r: Vec<CoordVec<N, DT>>)
        requires
            self.wf(),
        ensures
            r@.no_duplicates(),
            forall|c: CoordVec<N, DT>| r@.contains(c) <==> self.desired().contains(c),
    {
        let nothing: Arena<N, (), DT> = Arena::new();
        missing_from(&self.desired, &nothing)
    }

    /// The containers made for the positions that are to become active.
    pub fn iter_to_activate(&self) -> (r: Vec<&Container<N, C, DT>>)
        ensures
            r@.len() == self.pending().len(),
            forall|i: int|
                0 <= i < r@.len() ==> slot_of_container(*(#[trigger] r@[i])) == self.pending()[i],
    {
        let mut out: Vec<&Container<N, C, DT>> = Vec::new();
        let mut i: usize = 0;
        while i < self.to_activate.len()
            invariant
                i <= self.to_activate.len(),
                out@.len() == i,
                forall|j: int| 0 <= j < i ==> *(#[trigger] out@[j]) == self.to_activate@[j],
            decreases self.to_activate.len() - i,
        {
            out.push(&self.to_activate[i]);
            i += 1;
        }
        out
    }

    /// The chunk made for entry `i` of the positions that are to become active, to be
    /// changed in place.
    pub fn to_activate_mut(&mut self, i: usize) -> (r: Option<&mut C>)
        requires
            old(self).wf(),
        ensures
            r is Some <==> i < old(self).pending().len(),
            r matches Some(chunk) ==> *chunk == old(self).pending()[i as int].value,
            r matches Some(chunk) ==> final(self).pending() == old(self).pending().update(
                i as int,
                changed(old(self).pending()[i as int], *final(chunk)),
            ),
            r is None ==> final(self).pending() == old(self).pending(),
            final(self).wf(),
            (*final(self))@ == (*old(self))@,
            final(self).entries() == old(self).entries(),
            final(self).stage() == old(self).stage(),
            final(self).desired() == old(self).desired(),
            final(self).leaving() == old(self).leaving(),
            final(self).marked() == old(self).marked(),
    {
        if i >= self.to_activate.len() {
            return None;
        }
        proof {
            let before = *self;
            assert forall|after: Self|
                #![trigger after.wf()]
                #![trigger after.pending()]
                before.same_but_pending(after, i as int) implies after.wf() && after.pending()
                == before.pending().update(
                i as int,
                changed(before.pending()[i as int], after.to_activate@[i as int].chunk),
            ) by {
                before.lemma_pending_changed(after, i as int);
            }
        }
        Some(&mut self.to_activate[i].chunk)
    }

    /// `after` differs from `self` at most in the chunk of entry `i` of those pending.
    spec fn same_but_pending(self, after: Self, i: int) -> bool {
        &&& 0 <= i < self.to_activate@.len()
        &&& after.to_activate@.len() == self.to_activate@.len()
        &&& after.to_activate@[i].position == self.to_activate@[i].position
        &&& forall|j: int|
            0 <= j < self.to_activate@.len() && j != i ==> after.to_activate@[j]
                == self.to_activate@[j]
        &&& after.chunks == self.chunks
        &&& after.desired == self.desired
        &&& after.to_deactivate == self.to_deactivate
        &&& after.evict == self.evict
        &&& after.stage == self.stage
        &&& after.deepest == self.deepest
    }

    /// A tree that differs from a well-formed one only in one pending chunk is well formed.
    proof fn lemma_pending_changed(self, after: Self, i: int)
        requires
            self.wf(),
            self.same_but_pending(after, i),
        ensures
            after.wf(),
            after.pending() == self.pending().update(
                i,
                changed(self.pending()[i], after.to_activate@[i].chunk),
            ),
    {
        assert(after.pending() =~= self.pending().update(
            i,
            changed(self.pending()[i], after.to_activate@[i].chunk),
        ));
        assert forall|j: int| 0 <= j < after.to_activate@.len() implies (
        #[trigger] after.to_activate@[j]).position == self.to_activate@[j].position by {}
        assert forall|j: int| 0 <= j < after.to_activate@.len() implies (
        #[trigger] after.to_activate@[j]).position.wf() by {
            assert(self.to_activate@[j].position.wf());
        }
        assert forall|j: int| 0 <= j < after.to_activate@.len() implies (
        #[trigger] after.to_activate@[j]).position.depth <= after.deepest by {
            assert(self.to_activate@[j].position.depth <= self.deepest);
        }
        if self.stage == Stage::Prepared {
            assert forall|a: int, b: int|
                0 <= a < after.pending().len() && 0 <= b < after.pending().len() && a
                    != b implies (#[trigger] after.pending()[a]).key != (
            #[trigger] after.pending()[b]).key by {
                assert(self.pending()[a].key == after.pending()[a].key);
                assert(self.pending()[b].key == after.pending()[b].key);
            }
            assert forall|j: int| 0 <= j < after.to_activate@.len() implies !after.chunks@.contains_key(
                (#[trigger] after.to_activate@[j]).position,
            ) by {
                assert(!self.chunks@.contains_key(self.to_activate@[j].position));
            }
        }
    }

    /// The active positions that the update under way does not ask for.
    pub fn iter_to_deactivate(&self) -> (r: Vec<CoordVec<N, DT>>)
        ensures
            r@ == self.leaving(),
    {
        let mut out: Vec<CoordVec<N, DT>> = Vec::new();
        let mut i: usize = 0;
        while i < self.to_deactivate.len()
            invariant
                i <= self.to_deactivate.len(),
                out@ == self.to_deactivate@.take(i as int),
            decreases self.to_deactivate.len() - i,
        {
            out.push(self.to_deactivate[i]);
            assert(out@ =~= self.to_deactivate@.take(i + 1));
            i += 1;
        }
        assert(self.to_deactivate@.take(i as int) =~= self.to_deactivate@);
        out
    }

    /// The positions that are leaving and marked to have their chunk taken out.
    pub fn iter_to_remove(&self) -> (r: Vec<CoordVec<N, DT>>)
        requires
            self.wf(),
        ensures
            forall|c: CoordVec<N, DT>|
                r@.contains(c) <==> evicted(self.leaving(), self.marked(), c),
            self.leaving().no_duplicates() ==> r@.no_duplicates(),
    {
        let mut out: Vec<CoordVec<N, DT>> = Vec::new();
        let mut i: usize = 0;
        while i < self.to_deactivate.len()
            invariant
                i <= self.to_deactivate.len(),
                self.evict@.len() == self.to_deactivate@.len(),
                forall|c: CoordVec<N, DT>|
                    out@.contains(c) <==> evicted_first(
                        self.to_deactivate@,
                        self.evict@,
                        i as int,
                        c,
                    ),
                self.to_deactivate@.no_duplicates() ==> out@.no_duplicates(),
            decreases self.to_deactivate.len() - i,
        {
            let ghost before = out@;
            let position = self.to_deactivate[i];
            let marked = self.evict[i];
            if marked {
                out.push(position);
            }
            proof {
                assert forall|c: CoordVec<N, DT>|
                    out@.contains(c) <==> evicted_first(
                        self.to_deactivate@,
                        self.evict@,
                        i + 1,
                        c,
                    ) by {
                    if out@.contains(c) {
                        let a = choose|a: int| 0 <= a < out@.len() && out@[a] == c;
                        if a < before.len() {
                            assert(before[a] == c);
                            assert(before.contains(c));
                            let t = choose|t: int|
                                0 <= t < i && t < self.to_deactivate@.len() && t < self.evict@.len()
                                    && (#[trigger] self.to_deactivate@[t]) == c && self.evict@[t];
                            assert(0 <= t < i + 1 && self.to_deactivate@[t] == c);
                        } else {
                            assert(self.to_deactivate@[i as int] == c);
                        }
                    }
                    if evicted_first(self.to_deactivate@, self.evict@, i + 1, c) {
                        let t = choose|t: int|
                            0 <= t < i + 1 && t < self.to_deactivate@.len() && t < self.evict@.len()
                                && (#[trigger] self.to_deactivate@[t]) == c && self.evict@[t];
                        if t < i {
                            assert(evicted_first(self.to_deactivate@, self.evict@, i as int, c));
                            assert(before.contains(c));
                            let a = choose|a: int| 0 <= a < before.len() && before[a] == c;
                            assert(out@[a] == c);
                        } else {
                            assert(out@[before.len() as int] == c);
                        }
                    }
                }
                if self.to_deactivate@.no_duplicates() && marked {
                    assert forall|a: int, b: int|
                        0 <= a < out@.len() && 0 <= b < out@.len() && a != b implies out@[a]
                        != out@[b] by {
                        let last = before.len() as int;
                        if a == last || b == last {
                            let other = if a == last { b } else { a };
                            assert(before[other] == out@[other]);
                            assert(before.contains(before[other]));
                            let t = choose|t: int|
                                0 <= t < i && t < self.to_deactivate@.len() && t < self.evict@.len()
                                    && (#[trigger] self.to_deactivate@[t]) == before[other]
                                    && self.evict@[t];
                        } else {
                            assert(before[a] == out@[a] && before[b] == out@[b]);
                        }
                    }
                }
            }
            i += 1;
        }
        proof {
            assert forall|c: CoordVec<N, DT>|
                evicted(self.to_deactivate@, self.evict@, c) <==> evicted_first(
                    self.to_deactivate@,
                    self.evict@,
                    self.to_deactivate@.len() as int,
                    c,
                ) by {
                if evicted(self.to_deactivate@, self.evict@, c) {
                    let t = choose|t: int|
                        0 <= t < self.to_deactivate@.len() && t < self.evict@.len() && (
                        #[trigger] self.to_deactivate@[t]) == c && self.evict@[t];
                    assert(0 <= t < self.to_deactivate@.len() && self.to_deactivate@[t] == c);
                }
            }
        }
        out
    }

    /// The active containers in storage order.
    pub fn iter_chunks(&self) -> (r: Vec<&Container<N, C, DT>>)
        ensures
            stored(r@) == compact(self.entries()),
    {
        let mut out: Vec<&Container<N, C, DT>> = Vec::new();
        let count = self.chunks.slot_count();
        let mut i: usize = 0;
        assert(self.entries().take(0) =~= Seq::empty());
        assert(stored(out@) =~= Seq::empty());
        while i < count
            invariant
                i <= count,
                count == self.entries().len(),
                stored(out@) == compact(self.entries().take(i as int)),
            decreases count - i,
        {
            let ghost before = out@;
            proof {
                let upto = self.entries().take(i + 1);
                assert(upto.drop_last() =~= self.entries().take(i as int));
                assert(upto.last() == self.entries()[i as int]);
            }
            match self.chunks.container_at(i) {
                Some(c) => {
                    out.push(c);
                    assert(stored(out@) =~= stored(before).push(self.entries()[i as int]));
                },
                None => {},
            }
            i += 1;
        }
        assert(self.entries().take(count as int) =~= self.entries());
        out
    }
    /// The active containers whose position is no deeper than `max_depth` and lies in the
    /// box from `min` to `max`, found by walking down from the root and passing over every
    /// node outside the box.
    pub fn iter_in_bounds(
        &self,
        min: CoordVec<N, DT>,
        max: CoordVec<N, DT>,
        max_depth: u8,
    ) -> (r: Vec<&Container<N, C, DT>>)
        requires
            self.wf(),
            min.wf(),
            max.wf(),
            N < usize::BITS,
        ensures
            forall|k: int|
                0 <= k < r@.len() ==> {
                    &&& self@.contains_key((#[trigger] r@[k]).position)
                    &&& r@[k].chunk == self@[r@[k].position]
                    &&& r@[k].position@.inside_bounds(min@, max@, max_depth as nat)
                },
            forall|a: int, b: int|
                0 <= a < r@.len() && 0 <= b < r@.len() && a != b ==> (#[trigger] r@[a]).position
                    != (#[trigger] r@[b]).position,
            forall|c: CoordVec<N, DT>|
                self@.contains_key(c) && c@.inside_bounds(min@, max@, max_depth as nat)
                    ==> exists|k: int| 0 <= k < r@.len() && (#[trigger] r@[k]).position == c,
    {
        let places = self.places_in_bounds(min, max, max_depth);
        let mut out: Vec<&Container<N, C, DT>> = Vec::new();
        let mut k: usize = 0;
        assert forall|t: int| 0 <= t < places@.len() implies self@.contains_key(
            #[trigger] places@[t],
        ) by {
            assert(places@.contains(places@[t]));
        }
        while k < places.len()
            invariant
                k <= places.len(),
                self.wf(),
                out@.len() == k,
                all_wf(places@),
                forall|t: int| 0 <= t < places@.len() ==> self@.contains_key(#[trigger] places@[t]),
                forall|t: int|
                    0 <= t < k ==> (#[trigger] out@[t]).position == places@[t] && out@[t].chunk
                        == self@[places@[t]],
            decreases places.len() - k,
        {
            let place = places[k];
            assert(place.wf());
            assert(self@.contains_key(place));
            match self.chunks.find(place) {
                Some(slot) => {
                    proof {
                        self.chunks.lemma_wf();
                        lemma_active_at(self.chunks.entries(), slot as int);
                    }
                    match self.chunks.container_at(slot) {
                        Some(c) => {
                            out.push(c);
                        },
                        None => {
                            assert(false);
                        },
                    }
                },
                None => {
                    assert(false);
                },
            }
            k += 1;
        }
        proof {
            assert forall|c: CoordVec<N, DT>|
                self@.contains_key(c) && c@.inside_bounds(
                    min@,
                    max@,
                    max_depth as nat,
                ) implies exists|k: int| 0 <= k < out@.len() && (#[trigger] out@[k]).position == c by {
                assert(places@.contains(c));
                let t = choose|t: int| 0 <= t < places@.len() && places@[t] == c;
                assert(out@[t].position == c);
            }
            assert forall|k: int| 0 <= k < out@.len() implies (#[trigger] out@[k]).position@.inside_bounds(
                min@,
                max@,
                max_depth as nat,
            ) by {
                assert(places@.contains(places@[k]));
            }
        }
        out
    }

    /// The active positions that are no deeper than `max_depth` and lie in the box from
    /// `min` to `max`, each once.
    pub fn places_in_bounds(
        &self,
        min: CoordVec<N, DT>,
        max: CoordVec<N, DT>,
        max_depth: u8,
    ) -> (r: Vec<CoordVec<N, DT>>)
        requires
            self.wf(),
            min.wf(),
            max.wf(),
            N < usize::BITS,
        ensures
            r@.no_duplicates(),
            all_wf(r@),
            forall|c: CoordVec<N, DT>|
                r@.contains(c) <==> self@.contains_key(c) && c@.inside_bounds(
                    min@,
                    max@,
                    max_depth as nat,
                ),
    {
        let mut found: Arena<N, (), DT> = Arena::new();
        let root = CoordVec::<N, DT>::root();
        gather(&self.chunks, root, min, max, max_depth, self.deepest, &mut found);
        let nothing: Arena<N, (), DT> = Arena::new();
        let places = missing_from(&found, &nothing);
        proof {
            self.chunks.lemma_wf();
            assert forall|c: CoordVec<N, DT>|
                places@.contains(c) <==> self@.contains_key(c) && c@.inside_bounds(
                    min@,
                    max@,
                    max_depth as nat,
                ) by {
                if self@.contains_key(c) {
                    assert(c.wf());
                    lemma_root_contains(c@);
                }
                assert(found@.contains_key(c) <==> matches_under(
                    self.chunks@,
                    root@,
                    c,
                    min@,
                    max@,
                    max_depth as nat,
                ));
            }
        }
        places
    }
    /// Hands to `f` the chunk of every active position that is no deeper than `max_depth`
    /// and lies in the box from `min` to `max`, and stores in its place what `f` gives
    /// back. The chunks stay in their slots.
    pub fn iter_in_bounds_mut<F: Fn(CoordVec<N, DT>, C) -> C>(
        &mut self,
        min: CoordVec<N, DT>,
        max: CoordVec<N, DT>,
        max_depth: u8,
        f: F,
    )
        requires
            old(self).wf(),
            min.wf(),
            max.wf(),
            N < usize::BITS,
            forall|p: CoordVec<N, DT>, c: C| call_requires(f, (p, c)),
        ensures
            final(self).wf(),
            final(self).stage() == old(self).stage(),
            final(self).desired() == old(self).desired(),
            final(self).pending() == old(self).pending(),
            final(self).leaving() == old(self).leaving(),
            final(self).marked() == old(self).marked(),
            same_keys(final(self).entries(), old(self).entries()),
            forall|c: CoordVec<N, DT>| #[trigger]
                final(self)@.contains_key(c) <==> old(self)@.contains_key(c),
            forall|c: CoordVec<N, DT>|
                old(self)@.contains_key(c) && !c@.inside_bounds(min@, max@, max_depth as nat)
                    ==> #[trigger] final(self)@[c] == old(self)@[c],
            forall|c: CoordVec<N, DT>|
                old(self)@.contains_key(c) && c@.inside_bounds(min@, max@, max_depth as nat)
                    ==> call_ensures(f, (c, old(self)@[c]), #[trigger] final(self)@[c]),
    {
        let places = self.places_in_bounds(min, max, max_depth);
        proof {
            assert forall|t: int| 0 <= t < places@.len() implies self.chunks@.contains_key(
                #[trigger] places@[t],
            ) by {
                assert(places@.contains(places@[t]));
            }
        }
        apply_at(&mut self.chunks, &places, f);
        proof {
            assert forall|c: CoordVec<N, DT>|
                old(self)@.contains_key(c) && c@.inside_bounds(
                    min@,
                    max@,
                    max_depth as nat,
                ) implies call_ensures(f, (c, old(self)@[c]), #[trigger] self@[c]) by {
                assert(places@.contains(c));
                let t = choose|t: int| 0 <= t < places@.len() && places@[t] == c;
            }
            old(self).lemma_same_positions(*self);
        }
    }

    /// Hands to `f` the chunk of every active position, and stores in its place what `f`
    /// gives back. The chunks stay in their slots.
    pub fn iter_chunks_mut<F: Fn(CoordVec<N, DT>, C) -> C>(&mut self, f: F)
        requires
            old(self).wf(),
            forall|p: CoordVec<N, DT>, c: C| call_requires(f, (p, c)),
        ensures
            final(self).wf(),
            final(self).stage() == old(self).stage(),
            final(self).desired() == old(self).desired(),
            final(self).pending() == old(self).pending(),
            final(self).leaving() == old(self).leaving(),
            final(self).marked() == old(self).marked(),
            same_keys(final(self).entries(), old(self).entries()),
            forall|c: CoordVec<N, DT>| #[trigger]
                final(self)@.contains_key(c) <==> old(self)@.contains_key(c),
            forall|c: CoordVec<N, DT>|
                old(self)@.contains_key(c) ==> call_ensures(
                    f,
                    (c, old(self)@[c]),
                    #[trigger] final(self)@[c],
                ),
    {
        let nothing: Arena<N, (), DT> = Arena::new();
        let places = missing_from(&self.chunks, &nothing);
        proof {
            assert forall|t: int| 0 <= t < places@.len() implies self.chunks@.contains_key(
                #[trigger] places@[t],
            ) by {
                assert(places@.contains(places@[t]));
            }
        }
        apply_at(&mut self.chunks, &places, f);
        proof {
            assert forall|c: CoordVec<N, DT>| old(self)@.contains_key(c) implies call_ensures(
                f,
                (c, old(self)@[c]),
                #[trigger] self@[c],
            ) by {
                assert(places@.contains(c));
                let t = choose|t: int| 0 <= t < places@.len() && places@[t] == c;
            }
            old(self).lemma_same_positions(*self);
        }
    }

    /// Hands to `f` the chunk of every active position within `radius` cells of `center`,
    /// counted at the depth of `center`, and stores in its place what `f` gives back. The
    /// chunks stay in their slots.
    pub fn search_around<F: Fn(CoordVec<N, DT>, C) -> C>(
        &mut self,
        center: CoordVec<N, DT>,
        radius: u32,
        f: F,
    )
        requires
            old(self).wf(),
            center.wf(),
            depth_fits::<DT>(center.depth),
            N < usize::BITS,
            forall|p: CoordVec<N, DT>, c: C| call_requires(f, (p, c)),
        ensures
            final(self).wf(),
            final(self).stage() == old(self).stage(),
            final(self).desired() == old(self).desired(),
            final(self).pending() == old(self).pending(),
            final(self).leaving() == old(self).leaving(),
            final(self).marked() == old(self).marked(),
            same_keys(final(self).entries(), old(self).entries()),
            forall|c: CoordVec<N, DT>| #[trigger]
                final(self)@.contains_key(c) <==> old(self)@.contains_key(c),
            forall|c: CoordVec<N, DT>|
                old(self)@.contains_key(c) && !c@.within(center@, radius as nat)
                    ==> #[trigger] final(self)@[c] == old(self)@[c],
            forall|c: CoordVec<N, DT>|
                old(self)@.contains_key(c) && c@.within(center@, radius as nat) ==> call_ensures(
                    f,
                    (c, old(self)@[c]),
                    #[trigger] final(self)@[c],
                ),
    {
        let min = center.low_corner(radius);
        let max = center.high_corner(radius);
        self.iter_in_bounds_mut(min, max, u8::MAX, f);
    }

    /// A tree that differs from a well-formed one only in its chunks, with the same
    /// positions active, is well formed.
    proof fn lemma_same_positions(self, after: Self)
        requires
            self.wf(),
            after.chunks.wf(),
            forall|c: CoordVec<N, DT>| #[trigger]
                after.chunks@.contains_key(c) <==> self.chunks@.contains_key(c),
            after.desired == self.desired,
            after.to_activate == self.to_activate,
            after.to_deactivate == self.to_deactivate,
            after.evict == self.evict,
            after.stage == self.stage,
            after.deepest == self.deepest,
        ensures
            after.wf(),
    {
        assert(after.chunks@.dom() =~= self.chunks@.dom());
        self.lemma_chunks_changed(after);
    }
}

/// A slot with the key of `slot` and the value `value`.
pub open spec fn changed<K, V>(slot: Slot<K, V>, value: V) -> Slot<K, V> {
    Slot { key: slot.key, value }
}

/// What a list of containers stands for, as storage slots.
pub open spec fn stored<const N: usize, C, DT: ReasonableIntegerLike>(
    list: Seq<&Container<N, C, DT>>,
) -> Seq<Option<Slot<CoordVec<N, DT>, C>>> {
    list.map_values(|c: &Container<N, C, DT>| filled(c.position, c.chunk))
}

} // verus!
