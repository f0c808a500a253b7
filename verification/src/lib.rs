//! A wire-protocol codec for a Redis-style request/response protocol,
//! together with a small command layer and an in-memory store that exercise
//! it.
//!
//! The codec supports two decoding strategies over the same wire grammar: a
//! type-dispatching incremental decoder that consumes whole frames from a
//! growable receive buffer (`decode`), and a scan-then-parse pair that first
//! learns a frame's exact byte length without building values and then
//! parses a known-complete slice in one pass (`respv2`). Both are specified
//! against one reference parser (`model`), and `laws` proves the properties
//! tying them together: encoding round-trips, truncated buffers always read
//! as incomplete, and the scanner agrees with both parsers.
pub mod backend;
pub mod bytebuf;
pub mod cmd;
pub mod decode;
pub mod frame;
pub mod laws;
pub mod model;
pub mod respv2;
pub mod scan;
