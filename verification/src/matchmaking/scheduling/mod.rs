pub mod leases;
pub mod queues;
pub mod request_matrix;
mod ring;
pub mod scheduling_table;
pub mod states;
pub mod substructures;
pub mod tickets;

pub use states::{Assigned, Completed};
