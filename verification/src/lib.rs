//! NoctFS: an on-disk filesystem over a seekable, byte-addressable device.
//!
//! The filesystem keeps a superblock at the start of the device, a flat
//! chainmap of 64-bit block-successor entries after it, and a data zone of
//! fixed-size blocks after that. Files and directories are chains of blocks
//! linked through the chainmap; a directory's content is a stream of
//! variable-length entity records.

use vstd::prelude::*;

pub mod bootsector;
pub mod bytes;
pub mod chainio;
pub mod chainwrite;
pub mod content;
pub mod chainmap;
pub mod chainspec;
pub mod creation;
pub mod device;
pub mod dirmut;
pub mod dirs;
pub mod dirspec;
pub mod entity;
pub mod facade;
pub mod fs;

verus! {

/// A 64-bit block address within the data zone.
pub type BlockAddress = u64;

/// Chainmap sentinel: the last block of a chain, and the reserved block 0.
pub const END_OF_CHAIN: u64 = 0xFFFF_FFFF_FFFF_FFFF;

/// Everything that can go wrong in the filesystem.
#[derive(Clone, Copy, PartialEq, Eq, Structural, Debug)]
pub enum NoctFSError {
    /// The mounted device does not carry the filesystem magic.
    SignatureNotValid,
    /// The allocator could not find enough free blocks.
    OutOfSpace,
    /// A directory lookup did not find the requested entity.
    NotFound,
    /// A parameter was rejected (unsupported geometry, wrong entity kind).
    InvalidArgument,
    /// On-disk data is malformed (bad record header, flags, or geometry).
    Corrupt,
}

} // verus!
