//! The filesystem facade: formatting a device, mounting one, and the
//! file-level operations built on the directory engine.

use vstd::prelude::*;

use crate::bootsector::{BootSector, magic_bytes};
use crate::bytes::byte_at;
use crate::chainio::{chain_byte, chain_bytes};
use crate::chainspec::{
    map_entry, block_bytes, is_chain_of, valid_chain, stored_chain, block_zero_reserved,
    is_free, first_free_from, free_seq, num_free_from, blocks_for_bytes,
    lemma_first_free_props, lemma_free_seq_props, lemma_stored_chain, lemma_chain_frame,
    lemma_chain_distinct,
};
use crate::chainmap::zero_block_bytes;
use crate::device::Device;
use crate::dirmut::{dir_bytes, lemma_chain_bytes_blocks};
use crate::dirspec::{ParsedDir, parse_stream, dir_stream_wf, lemma_zero_header, first_match};
use crate::entity::{Entity, EntityView};
use crate::fs::NoctFS;
use crate::{BlockAddress, NoctFSError, END_OF_CHAIN};

verus! {

/// The geometry `format` accepts for a device of `size` bytes.
pub open spec fn format_args_ok(size: int, sector_size: u16, block_size: u32) -> bool {
    &&& BootSector::spec_allowed_block_size(block_size)
    &&& sector_size >= 512
    &&& size / (block_size as int) <= u32::MAX
    &&& size / (block_size as int) >= 2
    &&& sector_size + 8 * (size / (block_size as int))
        + (size / (block_size as int)) * (block_size as int) <= usize::MAX
}

/// The record of the root directory handed to callers: named `/`, rooted at
/// block 1.
pub open spec fn root_entity_view() -> EntityView {
    EntityView { name: seq![47u8], size: 0, start_block: 1, flags: 1, vendor_data_size: 0 }
}

/// The synthetic `.` record of a directory at block `blk`.
pub open spec fn dot_view(blk: u64) -> EntityView {
    EntityView { name: seq![46u8], size: 0, start_block: blk, flags: 1, vendor_data_size: 0 }
}

/// The synthetic `..` record pointing back at the parent block `parent`.
pub open spec fn dotdot_view(parent: u64) -> EntityView {
    EntityView {
        name: seq![46u8, 46u8],
        size: 0,
        start_block: parent,
        flags: 1,
        vendor_data_size: 0,
    }
}

/// A chain of zero-filled blocks holds an empty, well-formed directory.
pub proof fn lemma_zero_stream_wf(dev: Seq<u8>, bs: BootSector, start: u64)
    requires
        bs.wf(),
        valid_chain(dev, bs, start),
        stored_chain(dev, bs, start).len() >= 1,
        forall|i: int| 0 <= i < stored_chain(dev, bs, start).len()
            ==> block_bytes(dev, bs, #[trigger] stored_chain(dev, bs, start)[i] as int)
                == zero_block_bytes(bs),
    ensures
        dir_stream_wf(dir_bytes(dev, bs, start)),
        parse_stream(dir_bytes(dev, bs, start), 0) == (ParsedDir {
            recs: Seq::<EntityView>::empty(),
            end: 0,
            ok: true,
        }),
        dir_bytes(dev, bs, start).len()
            == stored_chain(dev, bs, start).len() * bs.block_size as nat,
{
    let c = stored_chain(dev, bs, start);
    let s = dir_bytes(dev, bs, start);
    let bsz = bs.block_size as int;
    assert(is_chain_of(dev, bs, start, c));
    assert(c.len() * bsz >= 1 * bsz) by (nonlinear_arith)
        requires c.len() >= 1, bsz >= 0,
    ;
    assert forall|q: int| 0 <= q < s.len() implies s[q] == 0 by {
        crate::dirmut::lemma_div_below_pub(q, c.len() as int, bsz);
        assert(block_bytes(dev, bs, c[q / bsz] as int)[q % bsz] == 0);
    }
    lemma_zero_header(s, 0);
}

impl<D: Device> NoctFS<D> {
    /// Mount the filesystem on `device`: read and decode the boot sector,
    /// check the magic, and refuse geometry the filesystem cannot operate
    /// on.
    pub fn new(device: D) -> (r: Result<NoctFS<D>, NoctFSError>)
        ensures
            ({
                let sector = crate::bytes::read_seq(device.bytes(), 0, 512);
                let ss = vstd::bytes::spec_u16_from_le_bytes(sector.subrange(11, 13));
                let bsz = vstd::bytes::spec_u32_from_le_bytes(sector.subrange(13, 17));
                let bmc = vstd::bytes::spec_u32_from_le_bytes(sector.subrange(17, 21));
                let geom_ok = BootSector::spec_allowed_block_size(bsz) && ss >= 512
                    && ss + 8 * (bmc as int) + (bmc as int) * (bsz as int) <= usize::MAX;
                &&& (r is Ok <==> sector.subrange(3, 11) == magic_bytes() && geom_ok)
                &&& (r is Ok ==> {
                    let fs = r->Ok_0;
                    &&& fs.dev() == device.bytes()
                    &&& fs.wf()
                    &&& fs.bootsector.sector_size == ss
                    &&& fs.bootsector.block_size == bsz
                    &&& fs.bootsector.block_map_count == bmc
                    &&& fs.bootsector.first_root_entity
                        == vstd::bytes::spec_u64_from_le_bytes(sector.subrange(21, 29))
                })
                &&& (r is Err ==> (r->Err_0 == NoctFSError::SignatureNotValid
                        <==> sector.subrange(3, 11) != magic_bytes()))
                &&& (r is Err && sector.subrange(3, 11) == magic_bytes()
                        ==> r->Err_0 == NoctFSError::Corrupt)
            }),
    {
        let raw = device.read_at(0, 512);
        let bootsector = BootSector::from_raw(raw.as_slice());
        if !bootsector.check_magic() {
            return Err(NoctFSError::SignatureNotValid);
        }
        if !BootSector::allowed_block_size(bootsector.block_size)
            || bootsector.sector_size < 512 {
            return Err(NoctFSError::Corrupt);
        }
        let span: u64 = bootsector.sector_size as u64
            + 8 * bootsector.block_map_count as u64
            + bootsector.block_map_count as u64 * bootsector.block_size as u64;
        if span > usize::MAX as u64 {
            return Err(NoctFSError::Corrupt);
        }
        Ok(NoctFS { bootsector, device })
    }

    /// Format `device`: write the boot sector, clear the chainmap, reserve
    /// block 0, allocate block 1 for the root directory, and give the root
    /// its `.` and `..` records. The geometry defaults are a 512-byte sector
    /// and 8192-byte blocks.
    #[verifier::rlimit(100)]
    #[verifier::spinoff_prover]
    pub fn format(device: D, sector_size: Option<u16>, block_size: Option<u32>)
        -> (r: Result<NoctFS<D>, NoctFSError>)
        ensures
            ({
                let size = device.bytes().len() as int;
                let ss = if sector_size is Some { sector_size->Some_0 } else { 512u16 };
                let bsz = if block_size is Some { block_size->Some_0 } else { 8192u32 };
                let bmc = size / (bsz as int);
                &&& (r is Ok <==> format_args_ok(size, ss, bsz))
                &&& (r is Err ==> r->Err_0 == NoctFSError::InvalidArgument)
                &&& (r is Ok ==> {
                    let fs = r->Ok_0;
                    let bs = fs.bootsector;
                    &&& fs.wf()
                    &&& bs.sector_size == ss
                    &&& bs.block_size == bsz
                    &&& bs.block_map_count == bmc
                    &&& bs.first_root_entity == 1
                    &&& bs.magic_ok()
                    &&& forall|a: int| 0 <= a < 512
                            ==> byte_at(fs.dev(), a) == bs.spec_sector()[a]
                    &&& map_entry(fs.dev(), bs, 0) == END_OF_CHAIN
                    &&& map_entry(fs.dev(), bs, 1) == END_OF_CHAIN
                    &&& forall|j: int| 2 <= j < bmc ==> map_entry(fs.dev(), bs, j) == 0
                    &&& valid_chain(fs.dev(), bs, 1)
                    &&& stored_chain(fs.dev(), bs, 1) == seq![1u64]
                    &&& dir_stream_wf(dir_bytes(fs.dev(), bs, 1))
                    &&& parse_stream(dir_bytes(fs.dev(), bs, 1), 0) == (ParsedDir {
                            recs: seq![dot_view(1), dotdot_view(1)],
                            end: dot_view(1).spec_fact_size()
                                + dotdot_view(1).spec_fact_size(),
                            ok: true,
                        })
                })
            }),
    {
        let ss: u16 = match sector_size {
            Some(v) => v,
            None => 512,
        };
        let bsz: u32 = match block_size {
            Some(v) => v,
            None => 8192,
        };
        let size = device.size();
        if !BootSector::allowed_block_size(bsz) || ss < 512 {
            return Err(NoctFSError::InvalidArgument);
        }
        let bmc64 = size / (bsz as u64);
        if bmc64 > u32::MAX as u64 || bmc64 < 2 {
            return Err(NoctFSError::InvalidArgument);
        }
        proof {
            assert(bmc64 * bsz as u64 <= 0xffff_ffffu64 * 0x4000u64) by (nonlinear_arith)
                requires bmc64 <= 0xffff_ffffu64, bsz <= 0x4000u32,
            ;
        }
        let span: u64 = ss as u64 + 8 * bmc64 + bmc64 * bsz as u64;
        if span > usize::MAX as u64 {
            return Err(NoctFSError::InvalidArgument);
        }
        let bootsector = BootSector::with_data(size, ss, bsz);
        let mut fs = NoctFS { bootsector, device };
        proof {
            assert(fs.wf());
        }
        // Write the boot sector image.
        let ghost dev0 = fs.dev();
        let sect = fs.bootsector.as_raw();
        fs.device.write_at(0, sect.as_slice());
        proof {
            crate::bytes::lemma_splice_byte_at(dev0, 0, sect@);
        }
        let ghost dev_sect = fs.dev();
        // Clear the chainmap.
        let n: u32 = fs.bootsector.block_map_count;
        let ghost bs = fs.bootsector;
        let mut i: u32 = 0;
        while i < n
            invariant
                fs.wf(),
                fs.bootsector == bs,
                n == bs.block_map_count,
                i <= n,
                forall|j: int| 0 <= j < i ==> map_entry(fs.dev(), bs, j) == 0,
                forall|a: int| 0 <= a < bs.sector_size
                    ==> byte_at(fs.dev(), a) == byte_at(dev_sect, a),
                forall|b: int| 0 <= b < bs.block_map_count as int
                    ==> block_bytes(fs.dev(), bs, b) == block_bytes(dev_sect, bs, b),
            decreases n - i,
        {
            fs.write_block(i as u64, 0);
            i = i + 1;
        }
        // Reserve block 0.
        fs.write_block(0, END_OF_CHAIN);
        let ghost dev_cleared = fs.dev();
        proof {
            assert(!is_free(fs.dev(), bs, 0));
            assert(is_free(fs.dev(), bs, 1));
            lemma_first_free_props(fs.dev(), bs, 0);
            match first_free_from(fs.dev(), bs, 0) {
                None => {
                    assert(!is_free(fs.dev(), bs, 1));
                },
                Some(b) => {
                    assert(b != 0);
                    assert(!(1 < b));
                },
            }
            assert(first_free_from(fs.dev(), bs, 0) == Some(1u64));
            assert(free_seq(fs.dev(), bs, 0, 1) == Some(seq![1u64])) by {
                assert(free_seq(fs.dev(), bs, 2, 0) == Some(Seq::<u64>::empty()));
                assert(seq![1u64] + Seq::<u64>::empty() =~= seq![1u64]);
            }
            lemma_free_seq_props(fs.dev(), bs, 0, 1);
        }
        // Allocate the root directory's block; first-fit makes it block 1.
        let root = match fs.allocate_blocks(1) {
            None => {
                proof {
                    assert(false);
                }
                return Err(NoctFSError::InvalidArgument);
            },
            Some(b) => b,
        };
        let ghost dev_root = fs.dev();
        proof {
            let devr = fs.dev();
            assert(root == 1);
            assert(is_chain_of(devr, bs, 1, seq![1u64]));
            lemma_stored_chain(devr, bs, 1, seq![1u64]);
            assert(valid_chain(devr, bs, 1)) by {
                assert(stored_chain(devr, bs, 1) == seq![1u64]);
            }
            assert(map_entry(devr, bs, 0) == END_OF_CHAIN) by {
                assert(!seq![1u64].contains(0u64));
            }
            lemma_zero_stream_wf(devr, bs, 1);
            assert(block_zero_reserved(devr, bs));
        }
        // The root's two synthetic records.
        let mut dot_name: Vec<u8> = Vec::new();
        dot_name.push(46u8);
        proof {
            assert(dot_name@ =~= seq![46u8]);
        }
        let dot = Entity::directory(dot_name, 0, root);
        let mut dotdot_name: Vec<u8> = Vec::new();
        dotdot_name.push(46u8);
        dotdot_name.push(46u8);
        proof {
            assert(dotdot_name@ =~= seq![46u8, 46u8]);
        }
        let dotdot = Entity::directory(dotdot_name, 0, root);
        proof {
            let devr = fs.dev();
            let s = dir_bytes(devr, bs, 1);
            assert(s.len() >= 512) by {
                assert(stored_chain(devr, bs, 1).len() * bs.block_size as nat
                    == 1 * bs.block_size as nat);
            }
            assert(blocks_for_bytes(0 + dot@.spec_fact_size() + 4,
                bs.block_size as int) <= u32::MAX) by {
                assert(37int % (bs.block_size as int) == 37
                    && 37int / (bs.block_size as int) == 0) by (nonlinear_arith)
                    requires bs.block_size >= 512,
                ;
            }
        }
        match fs.write_entity(root, &dot) {
            Err(_) => {
                proof {
                    assert(false);
                }
                return Err(NoctFSError::InvalidArgument);
            },
            Ok(()) => {},
        }
        let ghost dev_dot = fs.dev();
        proof {
            let devr = fs.dev();
            let s = dir_bytes(devr, bs, 1);
            let p = parse_stream(s, 0);
            assert(p.recs =~= seq![dot_view(1)]);
            assert(p.end == 33);
            assert(s.len() >= 512) by {
                assert(stored_chain(devr, bs, 1) == seq![1u64]);
                assert(stored_chain(devr, bs, 1).len() * bs.block_size as nat
                    == 1 * bs.block_size as nat);
            }
            assert(blocks_for_bytes(33 + dotdot@.spec_fact_size() + 4,
                bs.block_size as int) <= u32::MAX) by {
                assert(71int % (bs.block_size as int) == 71
                    && 71int / (bs.block_size as int) == 0) by (nonlinear_arith)
                    requires bs.block_size >= 512,
                ;
            }
            assert(map_entry(devr, bs, 0) == END_OF_CHAIN) by {
                assert(!seq![1u64].contains(0u64));
                assert(!stored_chain(devr, bs, 1).contains(0u64));
            }
        }
        match fs.write_entity(root, &dotdot) {
            Err(_) => {
                proof {
                    assert(false);
                }
                return Err(NoctFSError::InvalidArgument);
            },
            Ok(()) => {},
        }
        proof {
            let devf = fs.dev();
            let p = parse_stream(dir_bytes(devf, bs, 1), 0);
            assert(p.recs =~= seq![dot_view(1), dotdot_view(1)]);
            assert forall|a: int| 0 <= a < 512
                implies byte_at(fs.dev(), a) == bs.spec_sector()[a] by {
                assert(byte_at(fs.dev(), a) == byte_at(dev_dot, a));
                assert(byte_at(dev_dot, a) == byte_at(dev_root, a));
                assert(byte_at(dev_root, a) == byte_at(dev_cleared, a));
                assert(byte_at(dev_cleared, a) == byte_at(dev_sect, a));
                assert(byte_at(dev_sect, a) == sect@[a]);
            }
        }
        Ok(fs)
    }

    /// The synthetic entity describing the root directory.
    pub fn get_root_entity(&self) -> (r: Result<Entity, NoctFSError>)
        ensures
            r is Ok,
            r->Ok_0@ == root_entity_view(),
            r->Ok_0@.wf(),
    {
        let mut name: Vec<u8> = Vec::new();
        name.push(47u8);
        proof {
            assert(name@ =~= seq![47u8]);
        }
        Ok(Entity::directory(name, 0, 1))
    }

    /// Read file content: delegate to chain I/O over the entity's chain.
    pub fn read_contents_by_entity(&self, entity: &Entity, data: &mut Vec<u8>, offset: u64)
        requires
            self.wf(),
            crate::chainspec::has_chain(self.dev(), self.bootsector, entity.start_block),
            offset + old(data)@.len() <= u64::MAX,
        ensures
            final(data)@.len() == old(data)@.len(),
            ({
                let c = stored_chain(self.dev(), self.bootsector, entity.start_block);
                let bsz = self.bootsector.block_size as int;
                forall|k: int| 0 <= k < old(data)@.len()
                    ==> final(data)@[k] == if (offset + k) / bsz < c.len() {
                        chain_byte(self.dev(), self.bootsector, c, offset + k)
                    } else {
                        old(data)@[k]
                    }
            }),
    {
        self.read_blocks_data(entity.start_block, data, offset)
    }
}

} // verus!
