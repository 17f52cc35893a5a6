pub mod config;
pub mod ground_allocation;
pub mod scheduling;
pub mod utils;
