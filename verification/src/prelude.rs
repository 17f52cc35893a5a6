pub use crate::generator::generator::MatchmakingRequest;
