//! The superblock: a fixed header inside the 512-byte boot sector.
//!
//! The header is packed little-endian at byte 3 of the device, leaving bytes
//! 0..3 for a short jump of embedded boot code; the rest of the sector is
//! reserved for that code and is written as zero here.

use vstd::prelude::*;
use vstd::bytes::*;
use vstd::slice::slice_subrange;

verus! {

/// The filesystem magic: the ASCII bytes of `NoctFS__`.
pub open spec fn magic_bytes() -> Seq<u8> {
    seq![0x4eu8, 0x6fu8, 0x63u8, 0x74u8, 0x46u8, 0x53u8, 0x5fu8, 0x5fu8]
}

/// The byte offset of the header inside the boot sector.
pub open spec fn header_offset() -> int {
    3
}

/// The packed byte length of the header.
pub open spec fn header_len() -> int {
    26
}

/// The in-memory superblock.
pub struct BootSector {
    /// Must equal `magic_bytes` on a valid filesystem.
    pub filesystem_codename: [u8; 8],
    /// Device-addressing quantum; the chainmap starts at this offset.
    pub sector_size: u16,
    /// Size of one data-zone block.
    pub block_size: u32,
    /// Number of chainmap entries: device size divided by block size.
    pub block_map_count: u32,
    /// Starting block of the root directory; always 1.
    pub first_root_entity: u64,
}

impl BootSector {
    /// The packed little-endian header.
    pub open spec fn spec_header(self) -> Seq<u8> {
        self.filesystem_codename@ + spec_u16_to_le_bytes(self.sector_size)
            + spec_u32_to_le_bytes(self.block_size)
            + spec_u32_to_le_bytes(self.block_map_count)
            + spec_u64_to_le_bytes(self.first_root_entity)
    }

    /// The full 512-byte sector image: the header at byte 3, zeros elsewhere.
    pub open spec fn spec_sector(self) -> Seq<u8> {
        Seq::new(3, |i: int| 0u8) + self.spec_header()
            + Seq::new((512 - header_offset() - header_len()) as nat, |i: int| 0u8)
    }

    /// Whether the stored codename is the filesystem magic.
    pub open spec fn magic_ok(self) -> bool {
        self.filesystem_codename@ == magic_bytes()
    }

    /// A block size the filesystem accepts.
    pub open spec fn spec_allowed_block_size(sz: u32) -> bool {
        sz == 512 || sz == 1024 || sz == 2048 || sz == 4096 || sz == 8192 || sz == 16384
    }

    /// Geometry the filesystem agrees to operate on: an accepted block size,
    /// a sector size that covers the boot sector, and a chainmap plus data
    /// zone that stay addressable.
    pub open spec fn wf(self) -> bool {
        &&& Self::spec_allowed_block_size(self.block_size)
        &&& self.sector_size >= 512
        &&& self.sector_size + 8 * (self.block_map_count as int)
            + (self.block_map_count as int) * (self.block_size as int) <= usize::MAX
    }

    /// Construct a superblock for a device of `device_size` bytes.
    pub fn with_data(device_size: u64, sector_size: u16, block_size: u32) -> (r: BootSector)
        requires
            block_size >= 512,
            device_size / (block_size as u64) <= u32::MAX,
        ensures
            r.filesystem_codename@ == magic_bytes(),
            r.sector_size == sector_size,
            r.block_size == block_size,
            r.block_map_count == device_size / (block_size as u64),
            r.first_root_entity == 1,
    {
        let codename: [u8; 8] = [0x4eu8, 0x6fu8, 0x63u8, 0x74u8, 0x46u8, 0x53u8, 0x5fu8, 0x5fu8];
        proof {
            assert(codename@ =~= magic_bytes());
        }
        BootSector {
            filesystem_codename: codename,
            sector_size,
            block_size,
            block_map_count: (device_size / (block_size as u64)) as u32,
            first_root_entity: 1,
        }
    }

    /// Encode the full 512-byte sector image.
    pub fn as_raw(&self) -> (r: Vec<u8>)
        ensures
            r@ == self.spec_sector(),
            r@.len() == 512,
    {
        let mut out: Vec<u8> = Vec::new();
        out.push(0u8);
        out.push(0u8);
        out.push(0u8);
        let mut i: usize = 0;
        while i < 8
            invariant
                i <= 8,
                out@ == Seq::new(3, |j: int| 0u8)
                    + self.filesystem_codename@.subrange(0, i as int),
            decreases 8 - i,
        {
            out.push(self.filesystem_codename[i]);
            i = i + 1;
            proof {
                assert(out@ =~= Seq::new(3, |j: int| 0u8)
                    + self.filesystem_codename@.subrange(0, i as int));
            }
        }
        proof {
            assert(self.filesystem_codename@.subrange(0, 8) =~= self.filesystem_codename@);
        }
        let mut part = u16_to_le_bytes(self.sector_size);
        out.append(&mut part);
        let mut part = u32_to_le_bytes(self.block_size);
        out.append(&mut part);
        let mut part = u32_to_le_bytes(self.block_map_count);
        out.append(&mut part);
        let mut part = u64_to_le_bytes(self.first_root_entity);
        out.append(&mut part);
        let ghost with_header = out@;
        assert(with_header == Seq::new(3, |j: int| 0u8) + self.spec_header());
        while out.len() < 512
            invariant
                with_header == Seq::new(3, |j: int| 0u8) + self.spec_header(),
                with_header.len() == 29,
                out@.len() >= 29,
                out@.len() <= 512,
                out@ == with_header
                    + Seq::new((out@.len() - 29) as nat, |j: int| 0u8),
            decreases 512 - out.len(),
        {
            out.push(0u8);
            proof {
                assert(out@ =~= with_header
                    + Seq::new((out@.len() - 29) as nat, |j: int| 0u8));
            }
        }
        proof {
            assert(out@ =~= self.spec_sector());
        }
        out
    }

    /// Decode the header from a full boot-sector image. No validation is done
    /// here; mounting checks the magic and the geometry.
    pub fn from_raw(data: &[u8]) -> (r: BootSector)
        requires
            data@.len() >= 29,
        ensures
            r.filesystem_codename@ == data@.subrange(3, 11),
            r.sector_size == spec_u16_from_le_bytes(data@.subrange(11, 13)),
            r.block_size == spec_u32_from_le_bytes(data@.subrange(13, 17)),
            r.block_map_count == spec_u32_from_le_bytes(data@.subrange(17, 21)),
            r.first_root_entity == spec_u64_from_le_bytes(data@.subrange(21, 29)),
    {
        let codename: [u8; 8] = [
            data[3], data[4], data[5], data[6], data[7], data[8], data[9], data[10],
        ];
        proof {
            assert(codename@ =~= data@.subrange(3, 11));
        }
        BootSector {
            filesystem_codename: codename,
            sector_size: u16_from_le_bytes(slice_subrange(data, 11, 13)),
            block_size: u32_from_le_bytes(slice_subrange(data, 13, 17)),
            block_map_count: u32_from_le_bytes(slice_subrange(data, 17, 21)),
            first_root_entity: u64_from_le_bytes(slice_subrange(data, 21, 29)),
        }
    }

    /// Whether the stored codename is the filesystem magic.
    pub fn check_magic(&self) -> (r: bool)
        ensures
            r == self.magic_ok(),
    {
        let m: [u8; 8] = [0x4eu8, 0x6fu8, 0x63u8, 0x74u8, 0x46u8, 0x53u8, 0x5fu8, 0x5fu8];
        proof {
            assert(m@ =~= magic_bytes());
        }
        let mut i: usize = 0;
        while i < 8
            invariant
                i <= 8,
                m@ == magic_bytes(),
                forall|j: int| 0 <= j < i ==> self.filesystem_codename@[j] == magic_bytes()[j],
            decreases 8 - i,
        {
            if self.filesystem_codename[i] != m[i] {
                proof {
                    assert(self.filesystem_codename@[i as int] != magic_bytes()[i as int]);
                    assert(!self.magic_ok());
                }
                return false;
            }
            i = i + 1;
        }
        proof {
            assert(self.filesystem_codename@ =~= magic_bytes());
        }
        true
    }

    /// Whether `sz` is a block size the filesystem accepts.
    pub fn allowed_block_size(sz: u32) -> (r: bool)
        ensures
            r == Self::spec_allowed_block_size(sz),
    {
        sz == 512 || sz == 1024 || sz == 2048 || sz == 4096 || sz == 8192 || sz == 16384
    }
}

} // verus!
