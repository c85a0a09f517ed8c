//! A multiplexing transport: many independent logical contexts, each named
//! by a numeric handle, carried over one ordered duplex channel of discrete
//! byte frames. The multiplexer buffers frames that arrive for other
//! contexts so that every context sees exactly the frames addressed to it,
//! in arrival order; the two endpoint roles allocate handles from different
//! parities, so they never collide without a handshake.
//!
//! The layers, leaves first: [`bytes`] holds the wire layout of the handle
//! prefix; [`codec`] the payload codec; [`mux`] the context multiplexer and
//! its per-handle FIFO guarantees; [`transport`] the handle-facing
//! operations, forking and joining of contexts, and the finalization
//! scheduler; [`engine`] the two symmetric drivers and the value-protocol
//! contract they consume; [`values`] the value protocols shipped with the
//! crate and their round-trip statements.

pub mod bytes;
pub mod codec;
pub mod engine;
pub mod errors;
pub mod mux;
pub mod transport;
pub mod values;
