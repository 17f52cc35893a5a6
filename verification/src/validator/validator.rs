//! Matchmaking assignments handed to the validator.

use vstd::prelude::*;

use crate::generator::generator::MatchmakingRequest;

verus! {

/// A group of requests matched together.
#[derive(Debug, Clone)]
pub struct MatchmakingAssignment {
    pub grouped_requests: Vec<MatchmakingRequest>,
}

} // verus!
