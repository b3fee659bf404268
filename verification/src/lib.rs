//! zahttp: the logic of an HTTP/1.1 server that allocates nothing for a request.
//!
//! Every byte lives in a fixed buffer, and parsing borrows slices of it. The crate
//! reads no socket and writes to none: it decides what the bytes of a client mean
//! and composes what is sent back, and each function states exactly what it
//! computes.
//!
//! - [`bytes`], [`strings`], [`buf`]: byte strings, strings, the fixed-buffer writer
//! - [`http`], [`chunked`], [`conn`]: requests, chunked bodies, connections
//! - [`routes`], [`sse`], [`ranges`], [`multipart`]: what the paths answer
//! - [`ws`], [`sha1`], [`base64`]: WebSocket handshake and sessions
//! - [`gzip`], [`lz77`], [`huffman`], [`bitio`]: compression; [`inflate`]: what the
//!   compressed bytes mean
//! - [`dates`], [`calendar`], [`clock`]: HTTP dates
pub mod base64;
pub mod bitio;
pub mod buf;
pub mod bytes;
pub mod calendar;
pub mod chunked;
pub mod clock;
pub mod conn;
pub mod dates;
pub mod gzip;
pub mod http;
pub mod huffman;
pub mod inflate;
pub mod lz77;
pub mod multipart;
pub mod ranges;
pub mod routes;
pub mod sha1;
pub mod sse;
pub mod strings;
pub mod ws;
