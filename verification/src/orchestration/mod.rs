pub mod config;
pub mod events;
pub mod io;
pub mod workers;
