//! Low-level keyboard remapping: the decision engine that turns each observed
//! key event into the batch of events a virtual keyboard should emit.

pub mod keys;
mod suppressed_set;
pub mod key_mapper;
pub mod device;
