//! A command-frame protocol and a single-slot dispatcher between a
//! controller on a byte stream and a device's radio and network client.
//!
//! Requests arrive as frames, wait in a queue, and are dispatched one at a
//! time; each is answered by exactly one response frame, in the order of
//! arrival.

pub mod safe_read;
pub mod spec;
pub mod state;
