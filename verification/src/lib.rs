//! Signed, replay-protected air-quality measurements: the wire format of a
//! measurement, Ed25519 signing and checking of it, and the server-side store
//! that refuses replayed sequence numbers.

pub mod codec;
pub mod sensor_data;
pub mod crypto;
pub mod store;
pub mod server;
pub mod persist;
