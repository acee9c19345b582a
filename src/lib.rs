//! A TCP broadcast relay: every fixed-size text frame that a client sends is
//! sent on to every client that is still connected.
//!
//! The library holds the relay's logic: the frame format, the decisions of a
//! per-connection reader, and the broadcaster that owns the live connection
//! set and the ordered inbox. Sockets, threads and timing live with the caller.
pub mod frame;
pub mod reader;
pub mod relay;
