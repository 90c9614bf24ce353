//! A small Syncthing peer: device identifiers, the Luhn-32 check
//! characters used in their textual form, the BEP wire framing, local
//! discovery announcements and the decisions taken by the connection tasks.
pub mod buffers;
pub mod compress;
pub mod config;
pub mod connections;
pub mod digest;
pub mod deviceid;
pub mod discover;
pub mod luhn;
pub mod model;
pub mod protocol;
pub mod protos;
pub mod text;
pub mod tls;
