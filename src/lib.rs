//! Storage and catalog core of a small relational engine: slotted heap pages,
//! a tuple codec with a null bitmap, a buffer pool with LRU replacement, and
//! self-describing catalog heaps.
use vstd::prelude::*;

pub mod page;
pub mod storage;
pub mod buffer;
pub mod tuple;
pub mod heap;
pub mod catalog;
pub mod protocol;
pub mod insert;

verus! {

/// Object identifier.
pub type Oid = u32;

/// The distinguished invalid object identifier.
pub const INVALID_OID: u32 = 0;


/// Errors of the storage and catalog core.
#[derive(Debug, Clone, PartialEq, Eq)]
pub enum Error {
    /// No relation of this name is recorded in the catalog.
    RelationNotFound(Vec<u8>),
    /// A page has not enough free space for an item.
    NoRoomOnPage,
    /// Every frame of the buffer pool is pinned.
    NoFreeBuffer,
    /// Bytes on a page violate the page layout.
    PageCorruption,
    /// A block that does not exist was read.
    ShortRead,
    /// A block that does not exist, or a block of the wrong size, was written.
    ShortWrite,
    /// A tuple or a catalog record could not be encoded or decoded.
    CodecError,
    /// A buffer id that names no frame, or a frame that holds no page or is not pinned.
    InvalidBuffer,
    /// A relation cannot grow past the largest page number.
    RelationTooLarge,
    /// A frame was pinned more often than can be counted.
    PinOverflow,
    /// Every candidate object identifier is taken.
    OidExhausted,
    /// A request outside what this core supports.
    UnsupportedOperation,
}

} // verus!
