//! Selection of the K nearest candidates met during a nearest-neighbour search.
//!
//! A search walks some index of points, scores every point it visits by its
//! distance to the query, and hands index and distance to a
//! [`BoundedNearestSet`](nearest_set::BoundedNearestSet). The set keeps the K
//! nearest of what it was shown and reports the distance beyond which no
//! further candidate can be taken in, by which the search prunes.
//!
//! Distances are non-negative finite IEEE-754 double precision numbers. They
//! cross this interface as their bit patterns; see [`distance`].
pub mod candidate;
pub mod distance;
pub mod laws;
pub mod nearest_set;
pub mod selection;
