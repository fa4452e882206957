//! Terminal chat viewer core: event aggregation and line layout.
//!
//! The verified core of a terminal viewer for a live chat stream. It
//! holds the layout engine (badge prefix, greedy word wrap, sender
//! styling), the bounded message buffer, and the render-loop dispatch
//! that consumes the merged event stream. Terminal, network and
//! configuration I/O live outside the library and hand it plain values.

pub mod buffer;
pub mod config;
pub mod engine;
pub mod layout;
pub mod message;
pub mod wrap;
