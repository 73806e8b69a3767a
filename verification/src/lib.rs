//! A minimal file-distribution protocol over an unreliable datagram transport.
//!
//! A server exposes a filesystem subtree as a flat set of resources addressed
//! by integer identifiers; a client retrieves a resource by requesting
//! fixed-size slices of it and joining them. This crate holds the protocol
//! engine: the frame format, the slicing rule, the directory listing format,
//! the resource index and the decisions of both ends. Sockets, files and
//! timers are left to the caller, which reports what happened and is told
//! what to do next.

pub mod bytes;
pub mod client;
pub mod common;
pub mod exchange;
pub mod listing;
pub mod message;
pub mod server;
pub mod slicing;
pub mod tree;
