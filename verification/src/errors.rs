//! The error taxonomy of the transport: read-side faults, write-side faults,
//! and the combined fault type that protocol drivers surface.

use vstd::prelude::*;

verus! {

/// A fault on the read side of the transport.
#[derive(Clone, Copy, Debug, PartialEq, Eq, Structural)]
pub enum SerdeReadError {
    /// The physical inbound source itself reported an error.
    Stream,
    /// A payload did not decode to the expected value.
    Serde,
    /// A received item was shorter than the four-byte handle prefix.
    Insufficient,
    /// The physical inbound source was exhausted before the expected frame
    /// arrived.
    Terminated,
}

/// A fault on the write side of the transport.
#[derive(Clone, Copy, Debug, PartialEq, Eq, Structural)]
pub enum SerdeWriteError {
    /// The physical outbound sink rejected an item or failed to flush.
    Sink,
    /// A value could not be serialized.
    Serde,
}

/// A fault surfaced by a protocol driver: either side of the transport may
/// have failed.
#[derive(Clone, Copy, Debug, PartialEq, Eq, Structural)]
pub enum ProtocolError {
    /// A read against the transport failed.
    Read(SerdeReadError),
    /// A write against the transport failed.
    Write(SerdeWriteError),
}

/// The outcome of one read attempt: a payload, a suspension (the inbound
/// source has nothing ready yet), or a fault.
pub enum ReadStep<T> {
    /// A payload for the requested handle was available.
    Ready(T),
    /// No matching frame is ready; the caller should try again once the
    /// physical source yields more items.
    Pending,
    /// The read failed.
    Fail(SerdeReadError),
}

/// The outcome of one step of driving a protocol future: completion with a
/// value, a suspension, or a fault.
pub enum Step<T> {
    /// The future completed.
    Ready(T),
    /// The future is waiting for the physical channel.
    Pending,
    /// The future failed.
    Fail(ProtocolError),
}

} // verus!
