//! Server-side HTTP/2 framing and connection engine (h2c, prior knowledge).
//!
//! The crate decodes binary frames from a continuous byte stream, keeps
//! per-connection HPACK state and per-stream request assembly state, and
//! surfaces completed requests to an application-level handler.  All of the
//! protocol logic is verified; socket I/O lives with the caller.
//!
//! - [`frame`]: the wire format of a single frame and its verified parser.
//! - [`hpack`]: header-block decoding with the static and dynamic tables.
//! - [`stream`]: per-stream assembly of headers and body into a request.
//! - [`context`]: the per-connection engine driving parsing and dispatch.
//! - [`server`]: the registry of connections keyed by poller tokens.
//! - [`laws`]: connection-level properties proved of the engine's model.

pub mod context;
pub mod frame;
pub mod hpack;
pub mod laws;
pub mod server;
pub mod stream;
