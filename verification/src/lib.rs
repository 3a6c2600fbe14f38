//! A minimal single-process HTTP serving framework.
//!
//! Several listening sockets share one readiness-driven event loop.  The
//! crate holds the verified core: the reactor bookkeeping that ties event
//! identifiers to listeners, in-flight requests and pending writes, the
//! per-connection request state machine, and the response writer with its
//! wire serialization.  The actual socket, readiness-queue and process
//! system calls live outside the library and drive it through plain values.

pub mod status;
pub mod text;
pub mod response_writer;
pub mod request;
pub mod reactor;
pub mod cgi;
