//! Security of randomly sampled validator committees: the exact probability that a
//! committee holds too many faulty seats, and the stake behind the quorums of a
//! stake-weighted committee.
use vstd::prelude::*;

pub mod exact;
pub mod representativeness;
pub mod stake;

verus! {

} // verus!
