//! The filesystem handle: a superblock plus the device it lives on.

use vstd::prelude::*;

use crate::bootsector::BootSector;
use crate::bytes::byte_at;
use crate::chainspec::{map_entry, data_zone_offset, block_offset};
use crate::device::Device;
use crate::BlockAddress;

verus! {

/// A mounted filesystem: the decoded superblock and the owned device.
pub struct NoctFS<D: Device> {
    pub bootsector: BootSector,
    pub device: D,
}

impl<D: Device> NoctFS<D> {
    /// The current device image.
    pub open spec fn dev(&self) -> Seq<u8> {
        self.device.bytes()
    }

    /// The geometry is one the filesystem operates on.
    pub open spec fn wf(&self) -> bool {
        self.bootsector.wf()
    }

    /// The chainmap entry of block `nr`.
    pub open spec fn entry(&self, nr: int) -> u64 {
        map_entry(self.dev(), self.bootsector, nr)
    }

    /// Number of chainmap entries.
    pub open spec fn bmc(&self) -> int {
        self.bootsector.block_map_count as int
    }

    /// The block size in bytes.
    pub fn block_size(&self) -> (r: usize)
        ensures
            r == self.bootsector.block_size,
    {
        self.bootsector.block_size as usize
    }

    /// Byte offset where the data zone starts.
    pub fn datazone_offset(&self) -> (r: usize)
        requires
            self.wf(),
        ensures
            r == data_zone_offset(self.bootsector),
    {
        self.bootsector.sector_size as usize + 8 * self.bootsector.block_map_count as usize
    }

    /// Byte offset of data-zone block `block`.
    pub fn datazone_offset_with_block(&self, block: BlockAddress) -> (r: u64)
        requires
            self.wf(),
            block <= self.bootsector.block_map_count,
        ensures
            r == block_offset(self.bootsector, block as int),
    {
        proof {
            assert(block * (self.bootsector.block_size as u64)
                <= (self.bootsector.block_map_count as u64)
                    * (self.bootsector.block_size as u64)) by (nonlinear_arith)
                requires
                    block <= self.bootsector.block_map_count as u64,
            ;
        }
        self.datazone_offset() as u64 + block * self.bootsector.block_size as u64
    }

    /// Borrow the device.
    pub fn device_ref(&self) -> (r: &D)
        ensures
            r.bytes() == self.dev(),
    {
        &self.device
    }

    /// Unmount: hand the device back.
    pub fn into_device(self) -> (r: D)
        ensures
            r.bytes() == self.dev(),
    {
        self.device
    }
}

} // verus!
