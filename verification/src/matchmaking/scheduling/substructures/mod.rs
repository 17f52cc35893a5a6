pub mod contention;
pub mod empty_hold;
