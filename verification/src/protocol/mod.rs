//! The Block Exchange Protocol: device ids, their checksums, and the framing
//! of messages on a connection.
pub mod base32;
pub mod connection;
pub mod deviceid;
pub mod luhn;
pub mod message;

pub use deviceid::DeviceId;
pub use message::{TypedMessage, MAGIC};
