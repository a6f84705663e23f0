//! Address quality tracking for a peer reachable through several network
//! endpoints: per-endpoint reliability statistics and a priority order over
//! a peer's endpoints.

pub mod address;
pub mod clock;
pub mod record;
pub mod ordering;
pub mod registry;
pub mod laws;
