//! Minimal multicast extension for QUIC.

pub mod client;
pub mod connection;
pub mod crypto;
pub mod dgram;
pub mod error;
pub mod frame;
pub mod multicast;
pub mod net;
pub mod octets_spec;
pub mod packet;
pub mod ranges;
pub mod recovery;
pub mod stream;
pub mod streams;
pub mod wire;
