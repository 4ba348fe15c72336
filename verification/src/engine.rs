//! The engine (transport framing) protocol: single packets, multiplexed
//! payloads of several packets, and the handshake carried by an Open packet.

pub mod handshake;
pub mod packet;
pub mod payload;
