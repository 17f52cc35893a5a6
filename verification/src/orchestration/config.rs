//! Configuration for setting up multithreading behaviour.

use vstd::prelude::*;

use crate::matchmaking::config::MatchmakingQueueParameters;

verus! {

pub struct SetupParameters {
    pub ground_allocator_thread_count: usize,
    pub matchmaking_queue_parameters: MatchmakingQueueParameters,
}

} // verus!
