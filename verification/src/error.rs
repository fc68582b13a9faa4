//! Error kinds surfaced by the store.
use vstd::prelude::*;

verus! {

/// Why a read of encoded bytes could not finish.
#[derive(Clone, Copy, Debug, PartialEq, Eq)]
pub enum ReadFailure {
    /// The input ended before the field being read was complete.
    UnexpectedEof,
}

/// Errors raised while decoding journal frames or manifest records.
#[derive(Clone, Copy, Debug, PartialEq, Eq)]
pub enum DeserializeError {
    /// A marker tag byte that names no known marker.
    InvalidTag(u8),
    /// The underlying byte source failed or ran dry.
    Io(ReadFailure),
    /// A checksum in the stream disagrees with the recomputed one.
    Crc { expected: u32, got: u32 },
}

/// Errors raised while encoding records.
#[derive(Clone, Copy, Debug, PartialEq, Eq)]
pub enum SerializeError {
    /// The underlying byte sink failed.
    Io,
}

/// Errors surfaced to callers of the store.
#[derive(Clone, Copy, Debug, PartialEq, Eq)]
pub enum Error {
    /// An I/O failure reported by the storage layer.
    Io,
    /// Stored bytes that no well-formed encoder produces.
    Corruption,
    /// A caller handed an argument the operation cannot take.
    InvalidArgument,
    /// The keyspace is unusable after an unrecoverable failure,
    /// such as the sequence counter reaching its sentinel.
    Poisoned,
}

} // verus!
