//! Credential extraction toolkit for a family of consumer routers that
//! expose their configuration through two unauthenticated channels: a
//! compressed `rom-0` dump served over HTTP, and a framed TCP protocol
//! on port 32764.
//!
//! The crate verifies the byte-exact parts of both paths: the
//! run-length/back-reference decompressor, the endian-detection and
//! frame-header codec of the TCP protocol, and the `key=value` field
//! parser with its default-credential policy. Network transport is left
//! to callers, which hand the received bytes to the functions here.
pub mod lzs;
pub mod rombuster;
pub mod text;
pub mod trigger;
