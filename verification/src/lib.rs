//! Verified core of a content-addressed object-pack store's index companion:
//! the binary pack-index format (versions 1 and 2) with fan-out-accelerated
//! lookup, traversal, checksum verification and a writer, plus the decision
//! logic of the lock-file based atomic commit protocol.
use vstd::prelude::*;

pub mod codec;
pub mod lock;
pub mod write;
pub mod verify;
pub mod index;
pub mod layout;
pub mod oid;

verus! {

/// Everything that can go wrong in the library: filesystem failure, a lock
/// held by someone else, a signature with an unknown version, a structurally
/// invalid index, a failed self-digest comparison, and a repeated hash handed
/// to the writer.
#[derive(Clone, Copy, Debug, PartialEq, Eq, Structural)]
pub enum Error {
    Io,
    Contention,
    UnsupportedVersion,
    Corrupt,
    ChecksumMismatch,
    DuplicateObject,
}

/// The number of entries in the fan-out table: one per possible leading byte.
pub const FAN_LEN: usize = 256;

/// The width in bytes of an object id under the format's current hash kind.
pub const HASH_LEN: usize = 20;

} // verus!
