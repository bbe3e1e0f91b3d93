//! The set of the K nearest candidates that a search has met so far.
use crate::candidate::{CandidateEntry, NearestSetError, Phase};
use crate::distance::{distance_key, is_distance, key_of, UNBOUNDED};
use crate::selection::{
    bound_of, lemma_split_is_slot, lemma_with_candidate_keeps_order, nearest_first, slot,
    with_candidate, within_keys,
};
use vstd::prelude::*;

verus! {

/// What a [`BoundedNearestSet`] is to its callers.
pub struct NearestSetView {
    /// How many candidates the set has room for.
    pub capacity: nat,
    /// The candidates held, nearest first, those of one distance in the order
    /// in which they were shown.
    pub held: Seq<CandidateEntry>,
    /// Whether the candidates have been taken out.
    pub extracted: bool,
}

impl NearestSetView {
    /// The set after it was shown `entry`.
    pub open spec fn shown(self, entry: CandidateEntry) -> NearestSetView {
        NearestSetView { held: with_candidate(self.held, self.capacity, entry), ..self }
    }

    /// The distance from which on the set turns candidates away.
    pub open spec fn bound(self) -> u64 {
        bound_of(self.held, self.capacity)
    }

    /// Where the set stands in its life.
    pub open spec fn phase(self) -> Phase {
        if self.extracted {
            Phase::Extracted
        } else if self.held.len() < self.capacity {
            Phase::Collecting
        } else {
            Phase::Full
        }
    }

    /// The set once its candidates have been taken out.
    pub open spec fn emptied(self) -> NearestSetView {
        NearestSetView { held: Seq::empty(), extracted: true, ..self }
    }
}

/// Keeps the nearest of the candidates it is shown, up to a fixed number.
///
/// One set serves one query: it is made, shown every candidate that the search
/// visits, asked for its bound as often as the search likes, and at the end
/// gives up what it holds.
#[derive(Debug)]
pub struct BoundedNearestSet {
    capacity: usize,
    held: Vec<CandidateEntry>,
    extracted: bool,
}

impl View for BoundedNearestSet {
    type V = NearestSetView;

    closed spec fn view(&self) -> NearestSetView {
        NearestSetView {
            capacity: self.capacity as nat,
            held: self.held@,
            extracted: self.extracted,
        }
    }
}

/// Finds by bisection the position just behind the last entry that is not
/// farther than `distance`.
fn find_slot(held: &Vec<CandidateEntry>, distance: u64) -> (at: usize)
    requires
        nearest_first(held@),
    ensures
        at == slot(held@, distance),
        at <= held@.len(),
{
    let mut low: usize = 0;
    let mut high: usize = held.len();
    while low < high
        invariant
            low <= high <= held@.len(),
            nearest_first(held@),
            forall|i: int| 0 <= i < low ==> held@[i].distance <= distance,
            forall|i: int| high <= i < held@.len() ==> held@[i].distance > distance,
        decreases high - low,
    {
        let middle: usize = low + (high - low) / 2;
        if held[middle].distance <= distance {
            low = middle + 1;
        } else {
            high = middle;
        }
    }
    proof {
        lemma_split_is_slot(held@, distance, low as int);
    }
    low
}

impl BoundedNearestSet {
    #[verifier::type_invariant]
    spec fn well_formed(self) -> bool {
        &&& self.capacity >= 1
        &&& self.held@.len() <= self.capacity
        &&& nearest_first(self.held@)
        &&& within_keys(self.held@)
        &&& self.extracted ==> self.held@.len() == 0
    }

    /// Makes an empty set with room for `k` candidates. A set without room is
    /// refused.
    pub fn new(k: usize) -> (made: Result<BoundedNearestSet, NearestSetError>)
        ensures
            k < 1 ==> made == Err::<BoundedNearestSet, NearestSetError>(
                NearestSetError::InvalidCapacity,
            ),
            k >= 1 ==> made.is_ok() && made.unwrap()@ == (NearestSetView {
                capacity: k as nat,
                held: Seq::empty(),
                extracted: false,
            }),
    {
        if k < 1 {
            return Err(NearestSetError::InvalidCapacity);
        }
        Ok(BoundedNearestSet { capacity: k, held: Vec::new(), extracted: false })
    }

    /// Shows the set the candidate at `candidate_index`, whose distance to the
    /// query has the bit pattern `distance_bits`.
    ///
    /// A set whose candidates were taken out refuses; so does a live set when
    /// the pattern is no distance. Both leave the set as it was. Otherwise the
    /// candidate is held if there is room or if it is nearer than the farthest
    /// candidate held, which then leaves. A candidate exactly as far as the
    /// farthest of a full set is turned away. The bound never rises.
    pub fn consider(&mut self, candidate_index: usize, distance_bits: u64) -> (outcome: Result<
        (),
        NearestSetError,
    >)
        ensures
            old(self)@.extracted ==> outcome == Err::<(), NearestSetError>(
                NearestSetError::UseAfterExtract,
            ) && final(self)@ == old(self)@,
            !old(self)@.extracted && !is_distance(distance_bits) ==> outcome == Err::<
                (),
                NearestSetError,
            >(NearestSetError::InvalidDistance) && final(self)@ == old(self)@,
            !old(self)@.extracted && is_distance(distance_bits) ==> outcome == Ok::<
                (),
                NearestSetError,
            >(()) && final(self)@ == old(self)@.shown(
                CandidateEntry { index: candidate_index, distance: key_of(distance_bits) },
            ),
            old(self)@.phase() == Phase::Full && key_of(distance_bits) >= old(self)@.bound()
                ==> final(self)@ == old(self)@,
            final(self)@.bound() <= old(self)@.bound(),
            final(self)@.held.len() >= old(self)@.held.len(),
    {
        proof {
            use_type_invariant(&*self);
        }
        if self.extracted {
            return Err(NearestSetError::UseAfterExtract);
        }
        let key: u64 = match distance_key(distance_bits) {
            Some(key) => key,
            None => {
                return Err(NearestSetError::InvalidDistance);
            },
        };
        let entry = CandidateEntry { index: candidate_index, distance: key };
        proof {
            lemma_with_candidate_keeps_order(self.held@, self.capacity as nat, entry);
        }
        let count: usize = self.held.len();
        if count >= self.capacity && !entry.nearer_than(&self.held[count - 1]) {
            return Ok(());
        }
        let mut held: Vec<CandidateEntry> = Vec::new();
        std::mem::swap(&mut held, &mut self.held);
        if count >= self.capacity {
            held.pop();
            assert(held@ == old(self).held@.drop_last());
            assert(nearest_first(held@)) by {
                assert forall|i: int, j: int| 0 <= i < j < held@.len() implies held@[i].distance
                    <= held@[j].distance by {
                    assert(held@[i] == old(self).held@[i] && held@[j] == old(self).held@[j]);
                }
            }
        }
        let at: usize = find_slot(&held, key);
        held.insert(at, entry);
        assert(held@ == with_candidate(old(self).held@, self.capacity as nat, entry));
        self.held = held;
        Ok(())
    }

    /// The distance from which on a candidate is turned away: the distance of
    /// the farthest candidate held once the set is full, and [`UNBOUNDED`]
    /// while there is room, when nothing may be pruned.
    pub fn current_bound(&self) -> (bound: Result<u64, NearestSetError>)
        ensures
            self@.extracted ==> bound == Err::<u64, NearestSetError>(
                NearestSetError::UseAfterExtract,
            ),
            !self@.extracted ==> bound == Ok::<u64, NearestSetError>(self@.bound()),
            !self@.extracted ==> (self@.bound() == UNBOUNDED <==> self@.held.len()
                < self@.capacity),
    {
        proof {
            use_type_invariant(self);
        }
        if self.extracted {
            return Err(NearestSetError::UseAfterExtract);
        }
        let count: usize = self.held.len();
        if count < self.capacity {
            Ok(UNBOUNDED)
        } else {
            Ok(self.held[count - 1].distance)
        }
    }

    /// Takes out every candidate held, nearest first, and ends the set's life.
    /// A set whose candidates were taken out before refuses.
    pub fn extract(&mut self) -> (taken: Result<Vec<CandidateEntry>, NearestSetError>)
        ensures
            old(self)@.extracted ==> taken == Err::<Vec<CandidateEntry>, NearestSetError>(
                NearestSetError::UseAfterExtract,
            ) && final(self)@ == old(self)@,
            !old(self)@.extracted ==> taken.is_ok() && taken.unwrap()@ == old(self)@.held
                && final(self)@ == old(self)@.emptied(),
            taken matches Ok(entries) ==> entries@.len() <= old(self)@.capacity && nearest_first(
                entries@,
            ) && within_keys(entries@),
    {
        proof {
            use_type_invariant(&*self);
        }
        if self.extracted {
            return Err(NearestSetError::UseAfterExtract);
        }
        let mut held: Vec<CandidateEntry> = Vec::new();
        std::mem::swap(&mut held, &mut self.held);
        self.extracted = true;
        Ok(held)
    }

    /// How many candidates the set has room for.
    pub fn capacity(&self) -> (k: usize)
        ensures
            k == self@.capacity,
            k >= 1,
    {
        proof {
            use_type_invariant(self);
        }
        self.capacity
    }

    /// How many candidates the set holds.
    pub fn len(&self) -> (count: usize)
        ensures
            count == self@.held.len(),
            count <= self@.capacity,
    {
        proof {
            use_type_invariant(self);
        }
        self.held.len()
    }

    /// Where the set stands in its life.
    pub fn phase(&self) -> (phase: Phase)
        ensures
            phase == self@.phase(),
    {
        if self.extracted {
            Phase::Extracted
        } else if self.held.len() < self.capacity {
            Phase::Collecting
        } else {
            Phase::Full
        }
    }
}

} // verus!
