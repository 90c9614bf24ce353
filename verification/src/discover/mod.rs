//! Discovering peers on the local network.
pub mod local;
pub mod urls;
