//! A minimal web server core with a WebSocket protocol engine.
//!
//! The library performs no I/O: every function maps bytes that were received
//! to protocol state, messages and the bytes that have to be sent.

pub mod http;
pub mod server;
pub mod text;
pub mod ws;
