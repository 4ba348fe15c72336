//! The handshake parser: session metadata carried as JSON in the payload
//! of an Open-type engine packet. The wire field names are fixed
//! (`sid`, `upgrades`, `pingInterval`, `pingTimeout`); missing or mistyped
//! fields are a decode error, never a default-filled value. Decoding is
//! driven by the payload content alone: the packet's type is not checked
//! here, so callers gate on the type themselves if strictness is required.

use vstd::prelude::*;

use crate::engine::packet::Error;
use crate::engine::packet::Packet;

verus! {

/// Data exchanged in a handshake as defined by the server.
#[derive(Debug, Clone)]
pub struct HandshakePacket {
    pub sid: String,
    pub upgrades: Vec<String>,
    pub ping_interval: u64,
    pub ping_timeout: u64,
}

/// The mathematical model of a handshake.
pub ghost struct HandshakeModel {
    pub sid: Seq<char>,
    pub upgrades: Seq<Seq<char>>,
    pub ping_interval: u64,
    pub ping_timeout: u64,
}

impl View for HandshakePacket {
    type V = HandshakeModel;

    open spec fn view(&self) -> HandshakeModel {
        HandshakeModel {
            sid: self.sid@,
            upgrades: self.upgrades.deep_view(),
            ping_interval: self.ping_interval,
            ping_timeout: self.ping_timeout,
        }
    }
}

/// The handshake fields a JSON payload carries, where it is a JSON object
/// with a string `sid`, a string array `upgrades` and unsigned integers
/// `pingInterval` and `pingTimeout`. Named after serde_json's parser and
/// accessors, which decide it; the answer depends on the bytes alone.
pub uninterp spec fn handshake_of(payload: Seq<u8>) -> Option<HandshakeModel>;

/// Relies on serde_json: from_slice parses the payload as a generic JSON
/// value, and the accessors get, as_str, as_array and as_u64 read the
/// required fields, failing where one is absent or mistyped.
#[verifier::external_body]
fn parse_handshake_json(payload: &[u8]) -> (r: Option<HandshakePacket>)
    ensures
        match r {
            Some(h) => handshake_of(payload@) == Some(h@),
            None => handshake_of(payload@) is None,
        },
{
    let v: serde_json::Value = serde_json::from_slice(payload).ok()?;
    let sid = v.get("sid")?.as_str()?.to_string();
    let mut upgrades: Vec<String> = Vec::new();
    for u in v.get("upgrades")?.as_array()? {
        upgrades.push(u.as_str()?.to_string());
    }
    let ping_interval = v.get("pingInterval")?.as_u64()?;
    let ping_timeout = v.get("pingTimeout")?.as_u64()?;
    Some(HandshakePacket { sid, upgrades, ping_interval, ping_timeout })
}

impl HandshakePacket {
    /// Extracts the handshake from a packet's payload; a payload that is
    /// not such a JSON object is rejected as invalid JSON.
    pub fn try_from(packet: Packet) -> (r: Result<HandshakePacket, Error>)
        ensures
            match r {
                Ok(h) => handshake_of(packet.data@) == Some(h@),
                Err(e) => handshake_of(packet.data@) is None && e == Error::InvalidJson,
            },
    {
        match parse_handshake_json(packet.data.as_slice()) {
            Some(h) => Ok(h),
            None => Err(Error::InvalidJson),
        }
    }
}

} // verus!
