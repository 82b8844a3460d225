//! The session engine of a collaborative document server.
//!
//! Many clients edit one JSON-shaped document. Each edit is a batch of
//! pointer-addressed changes; the server applies it, commits it to the
//! document's journal at the next version and sends it on to the other
//! clients. A client that comes back is brought up to date with the changes
//! it has missed.
//!
//! * [`path`]: slash-separated, tilde-escaped pointer paths.
//! * [`value`]: the document tree and its mathematical model.
//! * [`change`]: set-or-delete mutations and how they apply to a tree.
//! * [`journal`]: the append-only log of one document's updates.
//! * [`sockets`]: the registry of a document's attached sinks.
//! * [`broadcast`]: the frames that a committed update sends to the sinks.
//! * [`node`]: the document descriptor, which keeps the above in step.
//! * [`wire`]: the frames of the protocol, as typed values.
//! * [`keys`]: document handles.
//! * [`routing`]: which request asks for what.
//!
//! Nothing here does I/O: a caller hands in what arrived and is handed back
//! what to store and what to send.

use vstd::prelude::*;

pub mod broadcast;
pub mod change;
pub mod journal;
pub mod keys;
pub mod node;
pub mod path;
pub mod routing;
pub mod sockets;
pub mod value;
pub mod wire;

verus! {

/// Wraps a value as the success of an operation that cannot fail.
pub fn ok<T>(v: T) -> (r: Result<T, core::convert::Infallible>)
    ensures
        r == Ok::<T, core::convert::Infallible>(v),
{
    Ok(v)
}

} // verus!
