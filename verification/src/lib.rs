//! A reliable, connection-oriented transport over an unreliable datagram
//! substrate, written as a pure protocol engine: every function here maps
//! plain values to plain values, and the caller owns the socket, the clock
//! and the threads.

pub mod endian;
pub mod error;
pub mod packets;
pub mod protocol;
