use vstd::prelude::*;

verus! {

/// The failure taxonomy of the library.
///
/// Parsing failures are `MalformedRecord` (a record of one of the two
/// snapshot streams does not match its fixed grammar) and
/// `StreamDesynchronized` (the nodes stream and the digests stream have gone
/// out of record alignment).  `InvalidPath`, `ReservedNameCollision` and
/// `MalformedShadow` are encoding-layer failures.  `InvalidTreeStructure` and
/// `UnsupportedEntry` are raised by the traversal engine when a tree does not
/// follow the marker scheme or holds an entry of an unknown kind.
/// `EntryAlreadyExists` and `EntryNotFound` are the tree-edit precondition
/// failures, `InvalidEntrySequence` rejects a snapshot entry sequence that
/// violates the pre-order layout, `ObjectNotFound` is an object-database read
/// miss, and `CorruptBlob` is a substance-detected hash mismatch.
#[derive(Clone, Copy, Debug, PartialEq, Eq, Structural)]
pub enum Error {
    MalformedRecord,
    StreamDesynchronized,
    InvalidPath,
    ReservedNameCollision,
    MalformedShadow,
    InvalidTreeStructure,
    UnsupportedEntry,
    EntryAlreadyExists,
    EntryNotFound,
    InvalidEntrySequence,
    ObjectNotFound,
    CorruptBlob,
}

} // verus!
