//! Verified decoders and encoders for low-level network message formats.
//!
//! The core is a DNS wire-format parser and query builder (RFC 1035,
//! including compression-pointer resolution) and an HTTP/1.x request and
//! response parser with RFC 7230 framing disambiguation. Both consume
//! adversarial byte buffers and are proved to stay in bounds, to terminate,
//! and to return exactly what their specifications state.

pub mod analysis;
pub mod der;
pub mod dns;
pub mod http;
pub mod macho;
pub mod util;
