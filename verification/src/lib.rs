//! Codec layer for a two-tier real-time messaging protocol: a transport
//! framing protocol ("engine") that multiplexes discrete packets over a byte
//! stream, and an application protocol ("socket") layered on top that adds
//! namespaces, acknowledgement ids and out-of-band binary attachments.
//!
//! Every codec here is a pure function from values to values: encoding turns
//! a typed packet into its exact wire bytes, decoding turns wire bytes back
//! into a typed packet or a typed error, and the round-trip laws are proved.

pub mod engine;
pub mod num;
pub mod socket;
pub mod text;
