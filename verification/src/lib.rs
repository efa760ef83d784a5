//! A buddy-system offset allocator: power-of-two reservations inside a fixed,
//! power-of-two sized universe, with deferred and budgeted reclamation.

pub mod arena;
pub mod buddy;
pub mod clock;
pub mod layout;
pub mod pretty_print;
pub mod queue;
pub mod sizing;
pub mod store;
pub mod tree;
