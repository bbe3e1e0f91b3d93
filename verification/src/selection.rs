//! What the set keeps of the candidates it is shown, as functions on sequences.
//!
//! The held candidates stand nearest first; among candidates of one distance
//! the one shown earlier stands first. A new candidate goes behind every held
//! candidate that is not farther than it, and when the set is full the last
//! held candidate, the farthest and among the farthest the latest, makes room.
use crate::candidate::CandidateEntry;
use crate::distance::UNBOUNDED;
use vstd::prelude::*;

verus! {

/// Whether no entry stands before a nearer one.
pub open spec fn nearest_first(held: Seq<CandidateEntry>) -> bool {
    forall|i: int, j: int| 0 <= i < j < held.len() ==> held[i].distance <= held[j].distance
}

/// Whether every entry's distance is a key, that is, below [`UNBOUNDED`].
pub open spec fn within_keys(held: Seq<CandidateEntry>) -> bool {
    forall|i: int| 0 <= i < held.len() ==> (#[trigger] held[i]).distance < UNBOUNDED
}

/// The position just behind the last entry that is not farther than `distance`.
pub open spec fn slot(held: Seq<CandidateEntry>, distance: u64) -> nat
    decreases held.len(),
{
    if held.len() == 0 {
        0
    } else if held.last().distance <= distance {
        held.len()
    } else {
        slot(held.drop_last(), distance)
    }
}

/// `held` with `entry` put behind the entries that are not farther than it.
pub open spec fn place(held: Seq<CandidateEntry>, entry: CandidateEntry) -> Seq<CandidateEntry> {
    held.insert(slot(held, entry.distance) as int, entry)
}

/// What a set with room for `capacity` candidates holds after it held `held`
/// and was shown `entry`.
///
/// While there is room the entry is placed. In a full set an entry that is
/// nearer than the last one takes that one's room; any other entry, also one
/// that is exactly as far as the last one, changes nothing.
pub open spec fn with_candidate(
    held: Seq<CandidateEntry>,
    capacity: nat,
    entry: CandidateEntry,
) -> Seq<CandidateEntry> {
    if held.len() < capacity {
        place(held, entry)
    } else if held.len() > 0 && entry.distance < held.last().distance {
        place(held.drop_last(), entry)
    } else {
        held
    }
}

/// The distance from which on a candidate is turned away: that of the last
/// held entry once the set is full, [`UNBOUNDED`] before.
pub open spec fn bound_of(held: Seq<CandidateEntry>, capacity: nat) -> u64 {
    if held.len() == 0 || held.len() < capacity {
        UNBOUNDED
    } else {
        held.last().distance
    }
}

/// What a set with room for `capacity` candidates holds after it was shown
/// the candidates of `stream`, one after the other.
pub open spec fn held_after(capacity: nat, stream: Seq<CandidateEntry>) -> Seq<CandidateEntry>
    decreases stream.len(),
{
    if stream.len() == 0 {
        Seq::empty()
    } else {
        with_candidate(held_after(capacity, stream.drop_last()), capacity, stream.last())
    }
}

/// The slot splits the entries: behind it all are farther than `distance`, and
/// where the entries stand nearest first, none before it is.
pub proof fn lemma_slot_splits(held: Seq<CandidateEntry>, distance: u64)
    ensures
        slot(held, distance) <= held.len(),
        forall|i: int| slot(held, distance) <= i < held.len() ==> held[i].distance > distance,
        nearest_first(held) ==> forall|i: int|
            0 <= i < slot(held, distance) ==> held[i].distance <= distance,
    decreases held.len(),
{
    if held.len() > 0 && held.last().distance > distance {
        let front = held.drop_last();
        lemma_slot_splits(front, distance);
        assert forall|i: int| slot(held, distance) <= i < held.len() implies held[i].distance
            > distance by {
            if i < front.len() {
                assert(front[i] == held[i]);
            }
        }
        if nearest_first(held) {
            assert(nearest_first(front)) by {
                assert forall|i: int, j: int| 0 <= i < j < front.len() implies front[i].distance
                    <= front[j].distance by {
                    assert(front[i] == held[i] && front[j] == held[j]);
                }
            }
            assert forall|i: int| 0 <= i < slot(held, distance) implies held[i].distance
                <= distance by {
                assert(front[i] == held[i]);
            }
        }
    }
}

/// A position that splits the entries as the slot does is the slot.
pub proof fn lemma_split_is_slot(held: Seq<CandidateEntry>, distance: u64, at: int)
    requires
        0 <= at <= held.len(),
        forall|i: int| 0 <= i < at ==> held[i].distance <= distance,
        forall|i: int| at <= i < held.len() ==> held[i].distance > distance,
    ensures
        at == slot(held, distance),
    decreases held.len(),
{
    if held.len() > 0 {
        if held.last().distance <= distance {
            assert(at == held.len()) by {
                if at < held.len() {
                    assert(held[held.len() - 1].distance > distance);
                }
            }
        } else {
            let front = held.drop_last();
            assert(at < held.len()) by {
                if at == held.len() {
                    assert(held[held.len() - 1].distance <= distance);
                }
            }
            assert forall|i: int| 0 <= i < at implies front[i].distance <= distance by {
                assert(front[i] == held[i]);
            }
            assert forall|i: int| at <= i < front.len() implies front[i].distance > distance by {
                assert(front[i] == held[i]);
            }
            lemma_split_is_slot(front, distance, at);
        }
    }
}

/// Placing an entry keeps the order and the keys, and adds one entry.
pub proof fn lemma_place_keeps_order(held: Seq<CandidateEntry>, entry: CandidateEntry)
    requires
        nearest_first(held),
    ensures
        nearest_first(place(held, entry)),
        place(held, entry).len() == held.len() + 1,
        within_keys(held) && entry.distance < UNBOUNDED ==> within_keys(place(held, entry)),
        place(held, entry).last().distance == (if held.len() > 0 && held.last().distance
            > entry.distance {
            held.last().distance
        } else {
            entry.distance
        }),
{
    let at = slot(held, entry.distance) as int;
    let placed = place(held, entry);
    lemma_slot_splits(held, entry.distance);
    held.insert_ensures(at, entry);
    assert forall|i: int, j: int| 0 <= i < j < placed.len() implies placed[i].distance
        <= placed[j].distance by {
        lemma_placed_entry(held, entry, i);
        lemma_placed_entry(held, entry, j);
    }
    if within_keys(held) && entry.distance < UNBOUNDED {
        assert forall|i: int| 0 <= i < placed.len() implies (#[trigger] placed[i]).distance
            < UNBOUNDED by {
            lemma_placed_entry(held, entry, i);
        }
    }
    lemma_placed_entry(held, entry, placed.len() - 1);
}

/// Where each entry of `place(held, entry)` comes from.
pub proof fn lemma_placed_entry(held: Seq<CandidateEntry>, entry: CandidateEntry, i: int)
    requires
        0 <= i <= held.len(),
    ensures
        slot(held, entry.distance) <= held.len(),
        place(held, entry).len() == held.len() + 1,
        i < slot(held, entry.distance) ==> place(held, entry)[i] == held[i],
        i == slot(held, entry.distance) ==> place(held, entry)[i] == entry,
        i > slot(held, entry.distance) ==> place(held, entry)[i] == held[i - 1],
{
    lemma_slot_splits(held, entry.distance);
}

/// Showing a candidate keeps the order, the keys and the room, and never
/// raises the bound.
pub proof fn lemma_with_candidate_keeps_order(
    held: Seq<CandidateEntry>,
    capacity: nat,
    entry: CandidateEntry,
)
    requires
        nearest_first(held),
        within_keys(held),
        held.len() <= capacity,
        entry.distance < UNBOUNDED,
    ensures
        nearest_first(with_candidate(held, capacity, entry)),
        within_keys(with_candidate(held, capacity, entry)),
        with_candidate(held, capacity, entry).len() <= capacity,
        with_candidate(held, capacity, entry).len() == (if held.len() < capacity {
            held.len() + 1
        } else {
            held.len()
        }),
        bound_of(with_candidate(held, capacity, entry), capacity) <= bound_of(held, capacity),
{
    if held.len() < capacity {
        lemma_place_keeps_order(held, entry);
    } else if held.len() > 0 && entry.distance < held.last().distance {
        let front = held.drop_last();
        assert(nearest_first(front) && within_keys(front)) by {
            assert forall|i: int, j: int| 0 <= i < j < front.len() implies front[i].distance
                <= front[j].distance by {
                assert(front[i] == held[i] && front[j] == held[j]);
            }
            assert forall|i: int| 0 <= i < front.len() implies (#[trigger] front[i]).distance
                < UNBOUNDED by {
                assert(front[i] == held[i]);
            }
        }
        lemma_place_keeps_order(front, entry);
        if front.len() > 0 {
            assert(front.last() == held[held.len() - 2]);
        }
    }
}

} // verus!
