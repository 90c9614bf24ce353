//! Messages exchanged with peers.
pub mod bep;
pub mod local;
pub mod wire;
