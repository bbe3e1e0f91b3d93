//! What holds of a set over a whole query.
//!
//! A query shows the set a stream of candidates. The laws speak of positions in
//! that stream, since two candidates may agree in index and distance and still
//! be two candidates.
use crate::candidate::CandidateEntry;
use crate::distance::UNBOUNDED;
use crate::selection::{
    bound_of, held_after, lemma_placed_entry, lemma_slot_splits,
    lemma_with_candidate_keeps_order, nearest_first, place, slot, with_candidate, within_keys,
};
use vstd::prelude::*;

verus! {

/// Whether the candidate at position `i` of the stream is to be kept rather
/// than the one at position `j`: it is nearer, or as near and shown earlier.
pub open spec fn preferred(stream: Seq<CandidateEntry>, i: int, j: int) -> bool {
    stream[i].distance < stream[j].distance || (stream[i].distance == stream[j].distance && i
        < j)
}

/// Whether `positions` names the nearest candidates of `stream`, as many as
/// `capacity` allows: they are positions of the stream, each is preferred to
/// all that follow it, and each is preferred to every position left out.
pub open spec fn picks_nearest(
    stream: Seq<CandidateEntry>,
    capacity: nat,
    positions: Seq<int>,
) -> bool {
    &&& positions.len() == if capacity <= stream.len() {
        capacity
    } else {
        stream.len()
    }
    &&& forall|i: int| 0 <= i < positions.len() ==> 0 <= #[trigger] positions[i] < stream.len()
    &&& forall|i: int, j: int|
        0 <= i < j < positions.len() ==> #[trigger] preferred(stream, positions[i], positions[j])
    &&& forall|i: int, j: int|
        0 <= i < positions.len() && 0 <= j < stream.len() && !positions.contains(j)
            ==> #[trigger] preferred(stream, positions[i], j)
}

/// The candidates that stand at `positions` in `stream`.
pub open spec fn entries_at(stream: Seq<CandidateEntry>, positions: Seq<int>) -> Seq<
    CandidateEntry,
> {
    Seq::new(positions.len(), |i: int| stream[positions[i]])
}

/// The positions in `stream` of the candidates that a set with room for
/// `capacity` holds after it was shown the stream.
spec fn positions_after(capacity: nat, stream: Seq<CandidateEntry>) -> Seq<int>
    decreases stream.len(),
{
    if stream.len() == 0 {
        Seq::empty()
    } else {
        let held = held_after(capacity, stream.drop_last());
        let before = positions_after(capacity, stream.drop_last());
        let distance = stream.last().distance;
        let here = stream.len() - 1;
        if held.len() < capacity {
            before.insert(slot(held, distance) as int, here)
        } else if held.len() > 0 && distance < held.last().distance {
            before.drop_last().insert(slot(held.drop_last(), distance) as int, here)
        } else {
            before
        }
    }
}

/// While there is room every position of the stream is among `positions`.
spec fn leaves_none_out(stream: Seq<CandidateEntry>, capacity: nat, positions: Seq<int>) -> bool {
    positions.len() < capacity ==> forall|j: int|
        0 <= j < stream.len() ==> positions.contains(j)
}

/// Whether `kept` holds positions of `stream` before its last, in the
/// preferred order, and `front` the candidates that stand there.
spec fn stands_at(
    stream: Seq<CandidateEntry>,
    kept: Seq<int>,
    front: Seq<CandidateEntry>,
) -> bool {
    &&& kept.len() == front.len()
    &&& forall|m: int| 0 <= m < kept.len() ==> 0 <= #[trigger] kept[m] < stream.len() - 1
    &&& forall|m: int| 0 <= m < kept.len() ==> #[trigger] front[m] == stream[kept[m]]
    &&& forall|m: int, n: int|
        0 <= m < n < kept.len() ==> #[trigger] preferred(stream, kept[m], kept[n])
}

/// Where each element of `s.insert(at, x)` comes from.
proof fn lemma_inserted(s: Seq<int>, at: int, x: int, i: int)
    requires
        0 <= at <= s.len(),
        0 <= i <= s.len(),
    ensures
        s.insert(at, x).len() == s.len() + 1,
        i < at ==> s.insert(at, x)[i] == s[i],
        i == at ==> s.insert(at, x)[i] == x,
        i > at ==> s.insert(at, x)[i] == s[i - 1],
{
}

/// Putting the last position of the stream into `kept` at the slot of its
/// candidate keeps the preferred order and what stands at the positions.
proof fn lemma_insert_last(
    stream: Seq<CandidateEntry>,
    kept: Seq<int>,
    front: Seq<CandidateEntry>,
)
    requires
        stream.len() > 0,
        stands_at(stream, kept, front),
    ensures
        slot(front, stream.last().distance) <= kept.len(),
        ({
            let at = slot(front, stream.last().distance) as int;
            let positions = kept.insert(at, stream.len() - 1);
            &&& positions.len() == kept.len() + 1
            &&& positions[at] == stream.len() - 1
            &&& forall|i: int|
                0 <= i < positions.len() ==> 0 <= #[trigger] positions[i] < stream.len()
            &&& forall|i: int|
                0 <= i < positions.len() && i != at ==> kept.contains(#[trigger] positions[i])
            &&& forall|m: int| 0 <= m < kept.len() ==> positions.contains(#[trigger] kept[m])
            &&& forall|i: int, j: int|
                0 <= i < j < positions.len() ==> #[trigger] preferred(
                    stream,
                    positions[i],
                    positions[j],
                )
            &&& place(front, stream.last()) == entries_at(stream, positions)
        }),
{
    let entry = stream.last();
    let here = stream.len() - 1;
    let at = slot(front, entry.distance) as int;
    let positions = kept.insert(at, here);
    assert(nearest_first(front)) by {
        assert forall|i: int, j: int| 0 <= i < j < front.len() implies front[i].distance
            <= front[j].distance by {
            assert(preferred(stream, kept[i], kept[j]));
            assert(front[i] == stream[kept[i]] && front[j] == stream[kept[j]]);
        }
    }
    lemma_slot_splits(front, entry.distance);
    lemma_inserted(kept, at, here, at);
    assert forall|i: int| 0 <= i < positions.len() implies 0 <= #[trigger] positions[i]
        < stream.len() by {
        lemma_inserted(kept, at, here, i);
    }
    assert forall|i: int| 0 <= i < positions.len() && i != at implies kept.contains(
        #[trigger] positions[i],
    ) by {
        lemma_inserted(kept, at, here, i);
        if i < at {
            assert(kept[i] == positions[i]);
        } else {
            assert(kept[i - 1] == positions[i]);
        }
    }
    assert forall|m: int| 0 <= m < kept.len() implies positions.contains(#[trigger] kept[m]) by {
        lemma_inserted(kept, at, here, m);
        lemma_inserted(kept, at, here, m + 1);
        if m < at {
            assert(positions[m] == kept[m]);
        } else {
            assert(positions[m + 1] == kept[m]);
        }
    }
    assert forall|i: int, j: int| 0 <= i < j < positions.len() implies #[trigger] preferred(
        stream,
        positions[i],
        positions[j],
    ) by {
        lemma_inserted(kept, at, here, i);
        lemma_inserted(kept, at, here, j);
        if i == at {
            assert(front[j - 1] == stream[kept[j - 1]]);
            assert(front[j - 1].distance > entry.distance);
        } else if j == at {
            assert(front[i] == stream[kept[i]]);
            assert(front[i].distance <= entry.distance);
            assert(kept[i] < here);
        } else {
            let m = if i < at {
                i
            } else {
                i - 1
            };
            let n = if j < at {
                j
            } else {
                j - 1
            };
            assert(preferred(stream, kept[m], kept[n]));
        }
    }
    let placed = place(front, entry);
    let there = entries_at(stream, positions);
    assert(placed.len() == there.len());
    assert forall|i: int| 0 <= i < placed.len() implies placed[i] == there[i] by {
        lemma_inserted(kept, at, here, i);
        lemma_placed_entry(front, entry, i);
        if i < at {
            assert(front[i] == stream[kept[i]]);
        } else if i > at {
            assert(front[i - 1] == stream[kept[i - 1]]);
        }
    }
    assert(placed =~= there);
}

/// What held of the stream without its last candidate, said of the stream.
proof fn lemma_earlier_stands(
    stream: Seq<CandidateEntry>,
    capacity: nat,
    before: Seq<int>,
    old_held: Seq<CandidateEntry>,
)
    requires
        stream.len() > 0,
        picks_nearest(stream.drop_last(), capacity, before),
        old_held == entries_at(stream.drop_last(), before),
    ensures
        stands_at(stream, before, old_held),
        forall|i: int, j: int|
            0 <= i < before.len() && 0 <= j < stream.len() - 1 && !before.contains(j)
                ==> #[trigger] preferred(stream, before[i], j),
{
    let earlier = stream.drop_last();
    assert forall|m: int| 0 <= m < before.len() implies #[trigger] old_held[m]
        == stream[before[m]] by {
        assert(0 <= before[m] < earlier.len());
        assert(earlier[before[m]] == stream[before[m]]);
    }
    assert forall|m: int, n: int| 0 <= m < n < before.len() implies #[trigger] preferred(
        stream,
        before[m],
        before[n],
    ) by {
        assert(0 <= before[m] < earlier.len() && 0 <= before[n] < earlier.len());
        assert(preferred(earlier, before[m], before[n]));
    }
    assert forall|i: int, j: int|
        0 <= i < before.len() && 0 <= j < stream.len() - 1 && !before.contains(
            j,
        ) implies #[trigger] preferred(stream, before[i], j) by {
        assert(0 <= before[i] < earlier.len());
        assert(preferred(earlier, before[i], j));
    }
}

/// The step of the induction while the set has room.
proof fn lemma_step_with_room(
    stream: Seq<CandidateEntry>,
    capacity: nat,
    before: Seq<int>,
    old_held: Seq<CandidateEntry>,
)
    requires
        stream.len() > 0,
        picks_nearest(stream.drop_last(), capacity, before),
        leaves_none_out(stream.drop_last(), capacity, before),
        old_held == entries_at(stream.drop_last(), before),
        old_held.len() < capacity,
    ensures
        ({
            let positions = before.insert(
                slot(old_held, stream.last().distance) as int,
                stream.len() - 1,
            );
            &&& picks_nearest(stream, capacity, positions)
            &&& leaves_none_out(stream, capacity, positions)
            &&& place(old_held, stream.last()) == entries_at(stream, positions)
        }),
{
    let at = slot(old_held, stream.last().distance) as int;
    let positions = before.insert(at, stream.len() - 1);
    lemma_earlier_stands(stream, capacity, before, old_held);
    lemma_insert_last(stream, before, old_held);
    assert forall|j: int| 0 <= j < stream.len() implies positions.contains(j) by {
        if j < stream.len() - 1 {
            assert(before.contains(j));
            let m = choose|m: int| 0 <= m < before.len() && before[m] == j;
            assert(positions.contains(before[m]));
        }
    }
}

/// The step of the induction when a nearer candidate takes the room of the
/// last one held.
proof fn lemma_step_replacing(
    stream: Seq<CandidateEntry>,
    capacity: nat,
    before: Seq<int>,
    old_held: Seq<CandidateEntry>,
)
    requires
        stream.len() > 0,
        capacity >= 1,
        picks_nearest(stream.drop_last(), capacity, before),
        old_held == entries_at(stream.drop_last(), before),
        old_held.len() == capacity,
        stream.last().distance < old_held.last().distance,
    ensures
        ({
            let positions = before.drop_last().insert(
                slot(old_held.drop_last(), stream.last().distance) as int,
                stream.len() - 1,
            );
            &&& picks_nearest(stream, capacity, positions)
            &&& leaves_none_out(stream, capacity, positions)
            &&& place(old_held.drop_last(), stream.last()) == entries_at(stream, positions)
        }),
{
    let here = stream.len() - 1;
    let entry = stream.last();
    let front = old_held.drop_last();
    let kept = before.drop_last();
    let worst = before.last();
    let at = slot(front, entry.distance) as int;
    let positions = kept.insert(at, here);
    lemma_earlier_stands(stream, capacity, before, old_held);
    assert(stands_at(stream, kept, front)) by {
        assert forall|m: int| 0 <= m < kept.len() implies 0 <= #[trigger] kept[m] < stream.len()
            - 1 by {
            assert(kept[m] == before[m]);
        }
        assert forall|m: int| 0 <= m < kept.len() implies #[trigger] front[m]
            == stream[kept[m]] by {
            assert(kept[m] == before[m] && front[m] == old_held[m]);
        }
        assert forall|m: int, n: int| 0 <= m < n < kept.len() implies #[trigger] preferred(
            stream,
            kept[m],
            kept[n],
        ) by {
            assert(kept[m] == before[m] && kept[n] == before[n]);
            assert(preferred(stream, before[m], before[n]));
        }
    }
    lemma_insert_last(stream, kept, front);
    assert(old_held[old_held.len() - 1] == stream[before[before.len() - 1]]);
    assert forall|i: int, j: int|
        0 <= i < positions.len() && 0 <= j < stream.len() && !positions.contains(
            j,
        ) implies #[trigger] preferred(stream, positions[i], j) by {
        assert(j != here);
        if j != worst && before.contains(j) {
            let m = choose|m: int| 0 <= m < before.len() && before[m] == j;
            assert(m < kept.len());
            assert(kept[m] == before[m]);
            assert(positions.contains(kept[m]));
            assert(false);
        }
        if j != worst {
            assert(preferred(stream, before[before.len() - 1], j));
        }
        if i != at {
            assert(kept.contains(positions[i]));
            let m = choose|m: int| 0 <= m < kept.len() && kept[m] == positions[i];
            assert(kept[m] == before[m]);
            if j == worst {
                assert(preferred(stream, before[m], before[before.len() - 1]));
            } else {
                assert(preferred(stream, before[m], j));
            }
        }
    }
}

/// The step of the induction when the candidate is turned away.
proof fn lemma_step_turned_away(
    stream: Seq<CandidateEntry>,
    capacity: nat,
    before: Seq<int>,
    old_held: Seq<CandidateEntry>,
)
    requires
        stream.len() > 0,
        capacity >= 1,
        picks_nearest(stream.drop_last(), capacity, before),
        old_held == entries_at(stream.drop_last(), before),
        old_held.len() == capacity,
        stream.last().distance >= old_held.last().distance,
    ensures
        picks_nearest(stream, capacity, before),
        leaves_none_out(stream, capacity, before),
        old_held == entries_at(stream, before),
{
    let here = stream.len() - 1;
    lemma_earlier_stands(stream, capacity, before, old_held);
    assert(old_held[old_held.len() - 1] == stream[before[before.len() - 1]]);
    assert forall|i: int, j: int| 0 <= i < j < before.len() implies preferred(
        stream,
        #[trigger] before[i],
        #[trigger] before[j],
    ) by {
        assert(preferred(stream, before[i], before[j]));
    }
    assert forall|i: int, j: int|
        0 <= i < before.len() && 0 <= j < stream.len() && !before.contains(
            j,
        ) implies #[trigger] preferred(stream, before[i], j) by {
        if j == here {
            if i < before.len() - 1 {
                assert(preferred(stream, before[i], before[before.len() - 1]));
            }
        }
    }
    assert(old_held =~= entries_at(stream, before));
}

proof fn lemma_positions_after(capacity: nat, stream: Seq<CandidateEntry>)
    requires
        capacity >= 1,
    ensures
        picks_nearest(stream, capacity, positions_after(capacity, stream)),
        leaves_none_out(stream, capacity, positions_after(capacity, stream)),
        held_after(capacity, stream) == entries_at(stream, positions_after(capacity, stream)),
    decreases stream.len(),
{
    if stream.len() == 0 {
        assert(held_after(capacity, stream) =~= entries_at(
            stream,
            positions_after(capacity, stream),
        ));
    } else {
        let earlier = stream.drop_last();
        let before = positions_after(capacity, earlier);
        let old_held = held_after(capacity, earlier);
        lemma_positions_after(capacity, earlier);
        if old_held.len() < capacity {
            lemma_step_with_room(stream, capacity, before, old_held);
        } else if old_held.len() > 0 && stream.last().distance < old_held.last().distance {
            lemma_step_replacing(stream, capacity, before, old_held);
        } else {
            lemma_step_turned_away(stream, capacity, before, old_held);
        }
    }
}

/// Over a whole query the set holds the nearest of the candidates it was
/// shown, as many as it has room for or all if they are fewer, and holds them
/// nearest first. Of candidates that are equally far the one shown earlier is
/// preferred: every candidate held is nearer than every candidate left out, or
/// as near and shown before it.
///
/// The proof gives the positions in the stream of the candidates held.
pub proof fn lemma_stream_keeps_nearest(capacity: nat, stream: Seq<CandidateEntry>) -> (positions:
    Seq<int>)
    requires
        capacity >= 1,
    ensures
        picks_nearest(stream, capacity, positions),
        held_after(capacity, stream) == entries_at(stream, positions),
        held_after(capacity, stream).len() == if capacity <= stream.len() {
            capacity
        } else {
            stream.len()
        },
        nearest_first(held_after(capacity, stream)),
{
    lemma_positions_after(capacity, stream);
    let positions = positions_after(capacity, stream);
    let held = held_after(capacity, stream);
    assert forall|i: int, j: int| 0 <= i < j < held.len() implies held[i].distance
        <= held[j].distance by {
        assert(preferred(stream, positions[i], positions[j]));
    }
    positions
}

/// Two choices of the nearest candidates agree in their first `count`
/// positions.
proof fn lemma_picks_agree(
    stream: Seq<CandidateEntry>,
    capacity: nat,
    first: Seq<int>,
    second: Seq<int>,
    count: nat,
)
    requires
        picks_nearest(stream, capacity, first),
        picks_nearest(stream, capacity, second),
        count <= first.len(),
    ensures
        forall|i: int| 0 <= i < count ==> first[i] == second[i],
    decreases count,
{
    if count > 0 {
        lemma_picks_agree(stream, capacity, first, second, (count - 1) as nat);
        let i = count - 1;
        let a = first[i];
        let b = second[i];
        assert(0 <= a < stream.len() && 0 <= b < stream.len());
        if a != b {
            if preferred(stream, a, b) {
                lemma_left_out(stream, capacity, second, first, i);
                assert(preferred(stream, second[i], a));
            } else {
                lemma_left_out(stream, capacity, first, second, i);
                assert(preferred(stream, first[i], b));
            }
        }
    }
}

/// Where two choices agree before position `i` and the second has there a
/// position preferred to that of the first, the first leaves that position out.
proof fn lemma_left_out(
    stream: Seq<CandidateEntry>,
    capacity: nat,
    first: Seq<int>,
    second: Seq<int>,
    i: int,
)
    requires
        picks_nearest(stream, capacity, first),
        picks_nearest(stream, capacity, second),
        0 <= i < first.len(),
        forall|m: int| 0 <= m < i ==> first[m] == second[m],
        preferred(stream, second[i], first[i]),
    ensures
        !first.contains(second[i]),
{
    if first.contains(second[i]) {
        let m = choose|m: int| 0 <= m < first.len() && first[m] == second[i];
        if m < i {
            assert(preferred(stream, second[m], second[i]));
        } else if m > i {
            assert(preferred(stream, first[i], first[m]));
        }
    }
}

/// There is one choice of the nearest candidates only: what
/// [`picks_nearest`] asks of the positions settles each of them.
pub proof fn lemma_picks_nearest_is_unique(
    stream: Seq<CandidateEntry>,
    capacity: nat,
    first: Seq<int>,
    second: Seq<int>,
)
    requires
        picks_nearest(stream, capacity, first),
        picks_nearest(stream, capacity, second),
    ensures
        first == second,
{
    lemma_picks_agree(stream, capacity, first, second, first.len());
    assert(first =~= second);
}

/// Over a whole query the bound is [`UNBOUNDED`] until as many candidates
/// were shown as the set has room for, and from one candidate to the next it
/// never rises.
pub proof fn lemma_bound_never_rises(capacity: nat, stream: Seq<CandidateEntry>)
    requires
        capacity >= 1,
        within_keys(stream),
    ensures
        within_keys(held_after(capacity, stream)),
        bound_of(held_after(capacity, stream), capacity) == UNBOUNDED <==> stream.len()
            < capacity,
        stream.len() > 0 ==> bound_of(held_after(capacity, stream), capacity) <= bound_of(
            held_after(capacity, stream.drop_last()),
            capacity,
        ),
    decreases stream.len(),
{
    if stream.len() > 0 {
        let earlier = stream.drop_last();
        assert(within_keys(earlier)) by {
            assert forall|i: int| 0 <= i < earlier.len() implies (#[trigger] earlier[i]).distance
                < UNBOUNDED by {
                assert(earlier[i] == stream[i]);
            }
        }
        lemma_bound_never_rises(capacity, earlier);
        lemma_stream_keeps_nearest(capacity, earlier);
        lemma_stream_keeps_nearest(capacity, stream);
        let entry = stream.last();
        assert(entry == stream[stream.len() - 1]);
        lemma_with_candidate_keeps_order(held_after(capacity, earlier), capacity, entry);
        let held = held_after(capacity, stream);
        if held.len() > 0 {
            assert(held[held.len() - 1].distance < UNBOUNDED);
        }
    }
}

/// A full set is not changed by a candidate that is as far as its bound or
/// farther: on a tie the candidate held stays.
pub proof fn lemma_tie_changes_nothing(
    held: Seq<CandidateEntry>,
    capacity: nat,
    entry: CandidateEntry,
)
    requires
        capacity >= 1,
        held.len() == capacity,
        entry.distance >= bound_of(held, capacity),
    ensures
        with_candidate(held, capacity, entry) == held,
{
}

} // verus!
