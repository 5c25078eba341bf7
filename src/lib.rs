//! Overlay routing and identity resolution for a peer-to-peer mesh.
//!
//! The library holds the pure logic of a node: the status taxonomy, the wire
//! codec, the signing and encryption envelope, the peer table, the routing
//! decisions and the fragmentation of oversized frames. Transports, timers and
//! tasks live outside it and hand it plain values.
pub mod clock;
pub mod codec;
pub mod crypto;
pub mod envelope;
pub mod fragment;
pub mod headers;
pub mod lora;
pub mod network;
pub mod peers;
pub mod routing;
pub mod status;
