//! Changing directories: making room for a record, writing one, rewriting
//! one in place, and deleting a file's record.

use vstd::prelude::*;
use vstd::arithmetic::div_mod::{lemma_fundamental_div_mod, lemma_fundamental_div_mod_converse};

use crate::bootsector::BootSector;
use crate::bytes::{byte_at, copy_into};
use crate::chainio::{chain_bytes, chain_byte, chain_addr};
use crate::chainspec::{
    map_entry, block_bytes, block_offset, is_chain_of, valid_chain, stored_chain,
    block_zero_reserved, num_free_from, blocks_for_bytes, lemma_stored_chain,
    lemma_chain_frame, lemma_chain_same_entries, lemma_chain_len_bounded,
    lemma_chain_distinct,
};
use crate::chainmap::zero_block_bytes;
use crate::device::Device;
use crate::dirs::scan_records;
use crate::dirspec::{
    ParsedDir, parse_stream, dir_stream_wf, consumed_by, first_match,
    lemma_parse_join, lemma_consumed_reaches_end, lemma_consumed_prefix_bound,
    lemma_consumed_snoc, lemma_zero_header, lemma_insert_record, lemma_replace_record,
    lemma_remove_record, lemma_parse_at_encodes, lemma_parse_suffix_step,
};
use crate::entity::Entity;
use crate::fs::NoctFS;
use crate::{BlockAddress, NoctFSError};

verus! {

/// The byte stream of the object whose chain starts at `block`.
pub open spec fn dir_bytes(dev: Seq<u8>, bs: BootSector, block: u64) -> Seq<u8> {
    chain_bytes(dev, bs, stored_chain(dev, bs, block))
}

/// A stream offset below `n` blocks' worth of bytes lies in a block below `n`.
proof fn lemma_div_below(q: int, n: int, b: int)
    requires
        b > 0,
        0 <= q,
        q < n * b,
    ensures
        0 <= q / b < n,
        0 <= q % b < b,
{
    lemma_fundamental_div_mod(q, b);
    assert(0 <= q / b && q / b < n) by (nonlinear_arith)
        requires
            b > 0,
            0 <= q,
            q < n * b,
            q == b * (q / b) + q % b,
            0 <= q % b,
            q % b < b,
    ;
}

/// Public face of the same bound, for other modules.
pub proof fn lemma_div_below_pub(q: int, n: int, b: int)
    requires
        b > 0,
        0 <= q,
        q < n * b,
    ensures
        0 <= q / b < n,
        0 <= q % b < b,
{
    lemma_div_below(q, n, b);
}

/// Two images whose blocks carry the same data give a chain the same stream.
pub proof fn lemma_chain_bytes_blocks(dev0: Seq<u8>, dev1: Seq<u8>, bs: BootSector, c: Seq<u64>)
    requires
        bs.wf(),
        forall|i: int| 0 <= i < c.len() ==> #[trigger] c[i] < bs.block_map_count as u64,
        forall|i: int| 0 <= i < c.len()
            ==> block_bytes(dev1, bs, #[trigger] c[i] as int)
                == block_bytes(dev0, bs, c[i] as int),
    ensures
        chain_bytes(dev1, bs, c) == chain_bytes(dev0, bs, c),
{
    let bsz = bs.block_size as int;
    assert forall|q: int| 0 <= q < c.len() * bsz
        implies chain_byte(dev1, bs, c, q) == chain_byte(dev0, bs, c, q) by {
        lemma_div_below(q, c.len() as int, bsz);
        let b = c[q / bsz] as int;
        assert(block_bytes(dev1, bs, b)[q % bsz] == block_bytes(dev0, bs, b)[q % bsz]);
    }
    assert(chain_bytes(dev1, bs, c) =~= chain_bytes(dev0, bs, c));
}

/// Growing a chain with zero-filled blocks appends zeros to its stream.
pub proof fn lemma_stream_extend(
    dev0: Seq<u8>, dev1: Seq<u8>, bs: BootSector, c: Seq<u64>, c2: Seq<u64>,
)
    requires
        bs.wf(),
        c.len() <= c2.len(),
        forall|i: int| 0 <= i < c.len() ==> #[trigger] c2[i] == c[i],
        forall|i: int| 0 <= i < c2.len() ==> #[trigger] c2[i] < bs.block_map_count as u64,
        forall|i: int| 0 <= i < c.len()
            ==> block_bytes(dev1, bs, #[trigger] c[i] as int)
                == block_bytes(dev0, bs, c[i] as int),
        forall|m: int| c.len() <= m < c2.len()
            ==> block_bytes(dev1, bs, #[trigger] c2[m] as int) == zero_block_bytes(bs),
    ensures
        chain_bytes(dev1, bs, c2) == chain_bytes(dev0, bs, c)
            + Seq::new(((c2.len() - c.len()) * bs.block_size as nat) as nat, |x: int| 0u8),
{
    let bsz = bs.block_size as int;
    let tail_len = ((c2.len() - c.len()) * bs.block_size as nat) as nat;
    let rhs = chain_bytes(dev0, bs, c) + Seq::new(tail_len, |x: int| 0u8);
    assert((c.len() as int) * bsz + (c2.len() - c.len()) as int * bsz
        == (c2.len() as int) * bsz) by (nonlinear_arith);
    assert forall|q: int| 0 <= q < c2.len() * bsz
        implies chain_byte(dev1, bs, c2, q) == rhs[q] by {
        lemma_fundamental_div_mod(q, bsz);
        if q < c.len() * bsz {
            lemma_div_below(q, c.len() as int, bsz);
            let b = c[q / bsz] as int;
            assert(c2[q / bsz] == c[q / bsz]);
            assert(block_bytes(dev1, bs, b)[q % bsz] == block_bytes(dev0, bs, b)[q % bsz]);
            assert(rhs[q] == chain_byte(dev0, bs, c, q));
        } else {
            assert(q / bsz >= c.len()) by {
                assert(q / bsz * bsz + q % bsz == q);
                assert(q / bsz < c.len() ==> q < c.len() * bsz) by (nonlinear_arith)
                    requires bsz > 0, q / bsz * bsz + q % bsz == q, 0 <= q % bsz < bsz,
                ;
            }
            lemma_div_below(q, c2.len() as int, bsz);
            assert(block_bytes(dev1, bs, c2[q / bsz] as int) == zero_block_bytes(bs));
            assert(block_bytes(dev1, bs, c2[q / bsz] as int)[q % bsz] == 0);
            assert(rhs[q] == 0);
        }
    }
    assert(chain_bytes(dev1, bs, c2) =~= rhs);
}

impl<D: Device> NoctFS<D> {
    /// Write the full stream `data` back over the directory's blocks.
    fn write_dir_stream(&mut self, directory_block: BlockAddress, data: &Vec<u8>)
        requires
            old(self).wf(),
            valid_chain(old(self).dev(), old(self).bootsector, directory_block),
            data@.len() == stored_chain(old(self).dev(), old(self).bootsector,
                directory_block).len() * old(self).bootsector.block_size as nat,
        ensures
            final(self).bootsector == old(self).bootsector,
            stored_chain(final(self).dev(), old(self).bootsector, directory_block)
                == stored_chain(old(self).dev(), old(self).bootsector, directory_block),
            valid_chain(final(self).dev(), old(self).bootsector, directory_block),
            dir_bytes(final(self).dev(), old(self).bootsector, directory_block) == data@,
            forall|j: int| 0 <= j < old(self).bmc()
                ==> map_entry(final(self).dev(), old(self).bootsector, j)
                    == map_entry(old(self).dev(), old(self).bootsector, j),
            forall|b: int| 0 <= b < old(self).bmc()
                    && !stored_chain(old(self).dev(), old(self).bootsector,
                        directory_block).contains(b as u64)
                ==> block_bytes(final(self).dev(), old(self).bootsector, b)
                    == block_bytes(old(self).dev(), old(self).bootsector, b),
            forall|a: int| 0 <= a < old(self).bootsector.sector_size
                ==> byte_at(final(self).dev(), a) == byte_at(old(self).dev(), a),
    {
        let ghost bs = self.bootsector;
        let ghost dev0 = self.dev();
        let ghost c = stored_chain(dev0, bs, directory_block);
        let ghost bszi = bs.block_size as int;
        proof {
            lemma_chain_len_bounded(dev0, bs, directory_block, c);
            assert(c.len() * bszi <= (bs.block_map_count as int) * bszi)
                by (nonlinear_arith)
                requires c.len() <= bs.block_map_count as int, bszi >= 0,
            ;
        }
        self.write_blocks_data(directory_block, data.as_slice(), 0);
        proof {
            let devf = self.dev();
            lemma_chain_same_entries(dev0, devf, bs, directory_block, c);
            lemma_stored_chain(devf, bs, directory_block, c);
            assert forall|q: int| 0 <= q < c.len() * bszi
                implies chain_byte(devf, bs, c, q) == data@[q] by {
                lemma_div_below(q, c.len() as int, bszi);
                assert(byte_at(devf, chain_addr(bs, c, 0 + q)) == data@[q]);
            }
            assert(chain_bytes(devf, bs, c) =~= data@);
        }
    }

    /// Find the byte offset of the free slot at the end of the directory's
    /// record stream, growing the chain so that `entity`'s record and a
    /// terminator will fit there. Fails with `OutOfSpace`, changing nothing,
    /// when the allocator cannot supply the growth.
    #[verifier::rlimit(100)]
    #[verifier::spinoff_prover]
    pub fn allocate_for_entity(&mut self, directory_block: BlockAddress, entity: &Entity)
        -> (r: Result<usize, NoctFSError>)
        requires
            old(self).wf(),
            directory_block < old(self).bootsector.block_map_count as u64,
            valid_chain(old(self).dev(), old(self).bootsector, directory_block),
            block_zero_reserved(old(self).dev(), old(self).bootsector),
            dir_stream_wf(dir_bytes(old(self).dev(), old(self).bootsector, directory_block)),
            entity@.wf(),
            blocks_for_bytes(parse_stream(dir_bytes(old(self).dev(), old(self).bootsector,
                directory_block), 0).end + entity@.spec_fact_size() + 4,
                old(self).bootsector.block_size as int) <= u32::MAX,
            parse_stream(dir_bytes(old(self).dev(), old(self).bootsector,
                directory_block), 0).end + entity@.spec_fact_size() + 4 <= u64::MAX,
        ensures
            final(self).bootsector == old(self).bootsector,
            ({
                let bs = old(self).bootsector;
                let s1 = dir_bytes(old(self).dev(), bs, directory_block);
                let p1 = parse_stream(s1, 0);
                let c = stored_chain(old(self).dev(), bs, directory_block);
                let needed = p1.end + entity@.spec_fact_size() + 4;
                &&& (r is Err <==> (needed > s1.len()
                        && num_free_from(old(self).dev(), bs, 0)
                            < (blocks_for_bytes(needed, bs.block_size as int)
                                - c.len()) as nat))
                &&& (r is Err ==> final(self).dev() == old(self).dev()
                        && r == Err::<usize, NoctFSError>(NoctFSError::OutOfSpace))
                &&& (r is Ok && needed <= s1.len()
                        ==> final(self).dev() == old(self).dev())
                &&& (r is Ok ==> ({
                    let s2 = dir_bytes(final(self).dev(), bs, directory_block);
                    let c2 = stored_chain(final(self).dev(), bs, directory_block);
                    &&& r == Ok::<usize, NoctFSError>(p1.end as usize)
                    &&& valid_chain(final(self).dev(), bs, directory_block)
                    &&& dir_stream_wf(s2)
                    &&& parse_stream(s2, 0) == (ParsedDir {
                            recs: p1.recs, end: p1.end, ok: true })
                    &&& p1.end + entity@.spec_fact_size() + 4 <= s2.len()
                    &&& c2.len() >= c.len()
                    &&& forall|i: int| 0 <= i < c.len() ==> #[trigger] c2[i] == c[i]
                    &&& forall|m: int| c.len() <= m < c2.len()
                            ==> crate::chainspec::is_free(old(self).dev(), bs,
                                #[trigger] c2[m] as int)
                    &&& forall|j: int| 0 <= j < old(self).bmc() && !c.contains(j as u64)
                            && !c2.contains(j as u64)
                            ==> map_entry(final(self).dev(), bs, j)
                                == map_entry(old(self).dev(), bs, j)
                    &&& forall|b: int| 0 <= b < old(self).bmc()
                            && !c2.skip(c.len() as int).contains(b as u64)
                            ==> block_bytes(final(self).dev(), bs, b)
                                == block_bytes(old(self).dev(), bs, b)
                    &&& forall|a: int| 0 <= a < bs.sector_size
                            ==> byte_at(final(self).dev(), a) == byte_at(old(self).dev(), a)
                }))
            }),
    {
        let ghost bs = self.bootsector;
        let ghost dev0 = self.dev();
        let ghost c = stored_chain(dev0, bs, directory_block);
        let ghost s1 = dir_bytes(dev0, bs, directory_block);
        let ghost p1 = parse_stream(s1, 0);
        let data = self.read_chain_data_vec(directory_block);
        let scan = scan_records(&data);
        let fact = entity.fact_size();
        let needed: u64 = scan.end as u64 + fact as u64 + 4;
        proof {
            lemma_consumed_reaches_end(s1, 0);
        }
        if needed <= data.len() as u64 {
            proof {
                assert(c.skip(c.len() as int) =~= Seq::<u64>::empty());
            }
            return Ok(scan.end);
        }
        let bsz: u64 = self.bootsector.block_size as u64;
        let tgt: u64 = needed / bsz + if needed % bsz != 0 { 1u64 } else { 0u64 };
        proof {
            assert(tgt as int == blocks_for_bytes(needed as int, bsz as int));
            lemma_chain_len_bounded(dev0, bs, directory_block, c);
            // The target exceeds the current length, so this is a pure grow.
            let bi = bsz as int;
            let ni = needed as int;
            let q = ni / bi;
            let rm = ni % bi;
            lemma_fundamental_div_mod(ni, bi);
            assert(ni > c.len() * bi);
            assert((rm == 0 ==> q > c.len()) && (rm != 0 ==> q >= c.len()))
                by (nonlinear_arith)
                requires
                    bi > 0,
                    ni > c.len() * bi,
                    ni == bi * q + rm,
                    0 <= rm,
                    rm < bi,
            ;
            assert(tgt > c.len());
        }
        match self.grow_dir_to(directory_block, tgt) {
            Err(e) => Err(e),
            Ok(()) => {
                proof {
                    let devf = self.dev();
                    let c2 = stored_chain(devf, bs, directory_block);
                    let s2 = dir_bytes(devf, bs, directory_block);
                    assert(c2.len() * (bs.block_size as int)
                        == (tgt as int) * (bs.block_size as int));
                    assert((tgt as int) * (bs.block_size as int) >= needed) by {
                        let bi = bs.block_size as int;
                        let ni = needed as int;
                        let q = ni / bi;
                        let rm = ni % bi;
                        lemma_fundamental_div_mod(ni, bi);
                        assert((rm == 0 ==> q * bi >= ni)
                            && (rm != 0 ==> (q + 1) * bi >= ni)) by (nonlinear_arith)
                            requires
                                bi > 0,
                                ni == bi * q + rm,
                                0 <= rm,
                                rm < bi,
                        ;
                    }
                }
                Ok(scan.end)
            },
        }
    }

    /// Grow the directory's chain to `tgt` blocks; the appended blocks read
    /// as zero, so the record stream keeps its parse and gains room.
    #[verifier::rlimit(100)]
    #[verifier::spinoff_prover]
    fn grow_dir_to(&mut self, directory_block: BlockAddress, tgt: u64)
        -> (r: Result<(), NoctFSError>)
        requires
            old(self).wf(),
            directory_block < old(self).bootsector.block_map_count as u64,
            valid_chain(old(self).dev(), old(self).bootsector, directory_block),
            block_zero_reserved(old(self).dev(), old(self).bootsector),
            dir_stream_wf(dir_bytes(old(self).dev(), old(self).bootsector, directory_block)),
            tgt > stored_chain(old(self).dev(), old(self).bootsector, directory_block).len(),
            tgt <= u32::MAX,
        ensures
            final(self).bootsector == old(self).bootsector,
            ({
                let bs = old(self).bootsector;
                let s1 = dir_bytes(old(self).dev(), bs, directory_block);
                let p1 = parse_stream(s1, 0);
                let c = stored_chain(old(self).dev(), bs, directory_block);
                &&& (r is Err <==> num_free_from(old(self).dev(), bs, 0)
                        < (tgt - c.len()) as nat)
                &&& (r is Err ==> final(self).dev() == old(self).dev()
                        && r == Err::<(), NoctFSError>(NoctFSError::OutOfSpace))
                &&& (r is Ok ==> ({
                    let s2 = dir_bytes(final(self).dev(), bs, directory_block);
                    let c2 = stored_chain(final(self).dev(), bs, directory_block);
                    &&& valid_chain(final(self).dev(), bs, directory_block)
                    &&& dir_stream_wf(s2)
                    &&& parse_stream(s2, 0) == (ParsedDir {
                            recs: p1.recs, end: p1.end, ok: true })
                    &&& s2.len() == c2.len() * bs.block_size as nat
                    &&& c2.len() == tgt
                    &&& forall|i: int| 0 <= i < c.len() ==> #[trigger] c2[i] == c[i]
                    &&& forall|m: int| c.len() <= m < c2.len()
                            ==> crate::chainspec::is_free(old(self).dev(), bs,
                                #[trigger] c2[m] as int)
                    &&& forall|j: int| 0 <= j < old(self).bmc() && !c.contains(j as u64)
                            && !c2.contains(j as u64)
                            ==> map_entry(final(self).dev(), bs, j)
                                == map_entry(old(self).dev(), bs, j)
                    &&& forall|b: int| 0 <= b < old(self).bmc()
                            && !c2.skip(c.len() as int).contains(b as u64)
                            ==> block_bytes(final(self).dev(), bs, b)
                                == block_bytes(old(self).dev(), bs, b)
                    &&& forall|a: int| 0 <= a < bs.sector_size
                            ==> byte_at(final(self).dev(), a) == byte_at(old(self).dev(), a)
                }))
            }),
    {
        let ghost bs = self.bootsector;
        let ghost dev0 = self.dev();
        let ghost c = stored_chain(dev0, bs, directory_block);
        let ghost s1 = dir_bytes(dev0, bs, directory_block);
        let ghost p1 = parse_stream(s1, 0);
        proof {
            lemma_consumed_reaches_end(s1, 0);
        }
        match self.set_chain_size(directory_block, tgt as usize) {
            Err(e) => Err(e),
            Ok(()) => {
                proof {
                    let devf = self.dev();
                    let c2 = stored_chain(devf, bs, directory_block);
                    lemma_chain_distinct(devf, bs, directory_block, c2);
                    assert forall|i: int| 0 <= i < c.len()
                        implies block_bytes(devf, bs, #[trigger] c[i] as int)
                            == block_bytes(dev0, bs, c[i] as int) by {
                        assert(!c2.skip(c.len() as int).contains(c[i])) by {
                            if c2.skip(c.len() as int).contains(c[i]) {
                                let w = choose|w: int| 0 <= w < c2.len() - c.len()
                                    && c2.skip(c.len() as int)[w] == c[i];
                                assert(c2[c.len() + w] == c2[i]);
                            }
                        }
                    }
                    lemma_grow_keeps_stream(dev0, devf, bs, directory_block);
                }
                Ok(())
            },
        }
    }
}

/// A record written over a directory's free slot appends that entity to its
/// listing. See `delete_file` for the reverse.
impl<D: Device> NoctFS<D> {
    /// Append `entity`'s record to the directory whose chain starts at
    /// `directory_block`, growing the chain when the stream is full. Fails
    /// with `OutOfSpace`, changing nothing, when the allocator cannot supply
    /// the growth.
    #[verifier::rlimit(100)]
    #[verifier::spinoff_prover]
    pub fn write_entity(&mut self, directory_block: BlockAddress, entity: &Entity)
        -> (r: Result<(), NoctFSError>)
        requires
            old(self).wf(),
            directory_block < old(self).bootsector.block_map_count as u64,
            valid_chain(old(self).dev(), old(self).bootsector, directory_block),
            block_zero_reserved(old(self).dev(), old(self).bootsector),
            dir_stream_wf(dir_bytes(old(self).dev(), old(self).bootsector, directory_block)),
            entity@.wf(),
            blocks_for_bytes(parse_stream(dir_bytes(old(self).dev(), old(self).bootsector,
                directory_block), 0).end + entity@.spec_fact_size() + 4,
                old(self).bootsector.block_size as int) <= u32::MAX,
            parse_stream(dir_bytes(old(self).dev(), old(self).bootsector,
                directory_block), 0).end + entity@.spec_fact_size() + 4 <= u64::MAX,
        ensures
            final(self).bootsector == old(self).bootsector,
            ({
                let bs = old(self).bootsector;
                let s1 = dir_bytes(old(self).dev(), bs, directory_block);
                let p1 = parse_stream(s1, 0);
                let c = stored_chain(old(self).dev(), bs, directory_block);
                let needed = p1.end + entity@.spec_fact_size() + 4;
                &&& (r is Err <==> (needed > s1.len()
                        && num_free_from(old(self).dev(), bs, 0)
                            < (blocks_for_bytes(needed, bs.block_size as int)
                                - c.len()) as nat))
                &&& (r is Err ==> final(self).dev() == old(self).dev()
                        && r == Err::<(), NoctFSError>(NoctFSError::OutOfSpace))
                &&& (r is Ok && needed <= s1.len()
                        ==> forall|j: int| 0 <= j < old(self).bmc()
                            ==> map_entry(final(self).dev(), bs, j)
                                == map_entry(old(self).dev(), bs, j))
                &&& (r is Ok ==> ({
                    let s2 = dir_bytes(final(self).dev(), bs, directory_block);
                    let c2 = stored_chain(final(self).dev(), bs, directory_block);
                    &&& valid_chain(final(self).dev(), bs, directory_block)
                    &&& dir_stream_wf(s2)
                    &&& parse_stream(s2, 0) == (ParsedDir {
                            recs: p1.recs.push(entity@),
                            end: p1.end + entity@.spec_fact_size(),
                            ok: true,
                        })
                    &&& c2.len() >= c.len()
                    &&& forall|i: int| 0 <= i < c.len() ==> #[trigger] c2[i] == c[i]
                    &&& forall|m: int| c.len() <= m < c2.len()
                            ==> crate::chainspec::is_free(old(self).dev(), bs,
                                #[trigger] c2[m] as int)
                    &&& forall|j: int| 0 <= j < old(self).bmc() && !c.contains(j as u64)
                            && !c2.contains(j as u64)
                            ==> map_entry(final(self).dev(), bs, j)
                                == map_entry(old(self).dev(), bs, j)
                    &&& forall|b: int| 0 <= b < old(self).bmc() && !c2.contains(b as u64)
                            ==> block_bytes(final(self).dev(), bs, b)
                                == block_bytes(old(self).dev(), bs, b)
                    &&& forall|a: int| 0 <= a < bs.sector_size
                            ==> byte_at(final(self).dev(), a) == byte_at(old(self).dev(), a)
                }))
            }),
    {
        let ghost bs = self.bootsector;
        let ghost dev0 = self.dev();
        let ghost c = stored_chain(dev0, bs, directory_block);
        let ghost s1 = dir_bytes(dev0, bs, directory_block);
        let ghost p1 = parse_stream(s1, 0);
        let off = match self.allocate_for_entity(directory_block, entity) {
            Err(e) => {
                return Err(e);
            },
            Ok(o) => o,
        };
        let ghost devm = self.dev();
        let ghost c2 = stored_chain(devm, bs, directory_block);
        let ghost sm = dir_bytes(devm, bs, directory_block);
        let mut data = self.read_chain_data_vec(directory_block);
        let raw = entity.as_raw();
        proof {
            lemma_consumed_reaches_end(sm, 0);
            lemma_chain_len_bounded(devm, bs, directory_block, c2);
            assert(c2.len() * (bs.block_size as int)
                <= (bs.block_map_count as int) * (bs.block_size as int))
                by (nonlinear_arith)
                requires c2.len() <= bs.block_map_count as int, bs.block_size as int >= 0,
            ;
            assert(off as int == parse_stream(sm, 0).end);
        }
        crate::bytes::copy_into(&mut data, off, raw.as_slice());
        proof {
            assert(raw@.len() == entity@.spec_fact_size());
            assert(data@.subrange(parse_stream(sm, 0).end,
                parse_stream(sm, 0).end + entity@.spec_fact_size())
                == entity@.spec_encode());
            lemma_insert_record(sm, data@, entity@);
        }
        self.write_dir_stream(directory_block, &data);
        proof {
            let devf = self.dev();
            assert(stored_chain(devf, bs, directory_block) == c2);
            assert(dir_bytes(devf, bs, directory_block) == data@);
        }
        Ok(())
    }

    /// Rewrite, in place, the first record whose serialized form equals
    /// `entity`'s, with `new_entity`'s record of the same size. `None` when
    /// no record matches; nothing changes then.
    #[verifier::rlimit(100)]
    #[verifier::spinoff_prover]
    pub fn overwrite_entity_header(
        &mut self, directory_block: BlockAddress, entity: &Entity, new_entity: &Entity,
    ) -> (r: Option<()>)
        requires
            old(self).wf(),
            valid_chain(old(self).dev(), old(self).bootsector, directory_block),
            dir_stream_wf(dir_bytes(old(self).dev(), old(self).bootsector, directory_block)),
            entity@.wf(),
            new_entity@.wf(),
            new_entity@.spec_fact_size() == entity@.spec_fact_size(),
        ensures
            final(self).bootsector == old(self).bootsector,
            ({
                let bs = old(self).bootsector;
                let s1 = dir_bytes(old(self).dev(), bs, directory_block);
                let p1 = parse_stream(s1, 0);
                let c = stored_chain(old(self).dev(), bs, directory_block);
                match first_match(p1.recs, entity@, 0) {
                    None => r is None && final(self).dev() == old(self).dev(),
                    Some(m) => {
                        let s2 = dir_bytes(final(self).dev(), bs, directory_block);
                        &&& r is Some
                        &&& stored_chain(final(self).dev(), bs, directory_block) == c
                        &&& valid_chain(final(self).dev(), bs, directory_block)
                        &&& dir_stream_wf(s2)
                        &&& parse_stream(s2, 0) == (ParsedDir {
                                recs: p1.recs.update(m, new_entity@),
                                end: p1.end,
                                ok: true,
                            })
                        &&& forall|j: int| 0 <= j < old(self).bmc()
                                ==> map_entry(final(self).dev(), bs, j)
                                    == map_entry(old(self).dev(), bs, j)
                        &&& forall|b: int| 0 <= b < old(self).bmc() && !c.contains(b as u64)
                                ==> block_bytes(final(self).dev(), bs, b)
                                    == block_bytes(old(self).dev(), bs, b)
                        &&& forall|a: int| 0 <= a < bs.sector_size
                                ==> byte_at(final(self).dev(), a)
                                    == byte_at(old(self).dev(), a)
                    },
                }
            }),
    {
        let ghost bs = self.bootsector;
        let ghost dev0 = self.dev();
        let ghost c = stored_chain(dev0, bs, directory_block);
        let ghost s1 = dir_bytes(dev0, bs, directory_block);
        let ghost p1 = parse_stream(s1, 0);
        let off = match self.get_entity_offset(directory_block, entity) {
            None => {
                return None;
            },
            Some(o) => o,
        };
        let ghost m = first_match(p1.recs, entity@, 0)->Some_0;
        proof {
            crate::dirspec::lemma_first_match_found(p1.recs, entity@, 0);
            lemma_consumed_reaches_end(s1, 0);
            lemma_consumed_prefix_bound(s1, 0, m);
            lemma_parse_suffix_step(s1, off as int);
            lemma_parse_at_encodes(s1, off as int);
            lemma_consumed_snoc(s1, 0, m);
            lemma_chain_len_bounded(dev0, bs, directory_block, c);
        }
        let mut data = self.read_chain_data_vec(directory_block);
        let raw = new_entity.as_raw();
        crate::bytes::copy_into(&mut data, off, raw.as_slice());
        proof {
            lemma_replace_record(s1, data@, new_entity@, m);
        }
        self.write_dir_stream(directory_block, &data);
        Some(())
    }

    /// Delete a plain file: remove its record from the directory, closing
    /// the gap in the stream, and free its data chain. Rejects directories
    /// with `InvalidArgument`; an absent record gives `NotFound`.
    #[verifier::rlimit(100)]
    #[verifier::spinoff_prover]
    pub fn delete_file(&mut self, directory_block: BlockAddress, entity: &Entity)
        -> (r: Result<(), NoctFSError>)
        requires
            old(self).wf(),
            valid_chain(old(self).dev(), old(self).bootsector, directory_block),
            dir_stream_wf(dir_bytes(old(self).dev(), old(self).bootsector, directory_block)),
            entity@.wf(),
            entity.start_block == 0 || crate::chainspec::has_chain(old(self).dev(),
                old(self).bootsector, entity.start_block),
            forall|i: int, j: int| 0 <= i < stored_chain(old(self).dev(),
                    old(self).bootsector, directory_block).len()
                    && 0 <= j < stored_chain(old(self).dev(), old(self).bootsector,
                        entity.start_block).len()
                ==> stored_chain(old(self).dev(), old(self).bootsector,
                        directory_block)[i]
                    != stored_chain(old(self).dev(), old(self).bootsector,
                        entity.start_block)[j],
        ensures
            final(self).bootsector == old(self).bootsector,
            ({
                let bs = old(self).bootsector;
                let s1 = dir_bytes(old(self).dev(), bs, directory_block);
                let p1 = parse_stream(s1, 0);
                let c = stored_chain(old(self).dev(), bs, directory_block);
                let cf = stored_chain(old(self).dev(), bs, entity.start_block);
                &&& (entity@.is_directory() ==> r == Err::<(), NoctFSError>(
                        NoctFSError::InvalidArgument)
                        && final(self).dev() == old(self).dev())
                &&& (!entity@.is_directory() ==> match first_match(p1.recs, entity@, 0) {
                    None => r == Err::<(), NoctFSError>(NoctFSError::NotFound)
                        && final(self).dev() == old(self).dev(),
                    Some(m) => {
                        let s2 = dir_bytes(final(self).dev(), bs, directory_block);
                        &&& r is Ok
                        &&& stored_chain(final(self).dev(), bs, directory_block) == c
                        &&& valid_chain(final(self).dev(), bs, directory_block)
                        &&& dir_stream_wf(s2)
                        &&& parse_stream(s2, 0) == (ParsedDir {
                                recs: p1.recs.remove(m),
                                end: p1.end - p1.recs[m].spec_fact_size(),
                                ok: true,
                            })
                        &&& (entity.start_block != 0 ==> forall|i: int| 0 <= i < cf.len()
                                ==> map_entry(final(self).dev(), bs,
                                    #[trigger] cf[i] as int) == 0)
                        &&& forall|j: int| 0 <= j < old(self).bmc()
                                && (entity.start_block == 0 || !cf.contains(j as u64))
                                ==> map_entry(final(self).dev(), bs, j)
                                    == map_entry(old(self).dev(), bs, j)
                        &&& forall|b: int| 0 <= b < old(self).bmc() && !c.contains(b as u64)
                                ==> block_bytes(final(self).dev(), bs, b)
                                    == block_bytes(old(self).dev(), bs, b)
                        &&& forall|a: int| 0 <= a < bs.sector_size
                                ==> byte_at(final(self).dev(), a)
                                    == byte_at(old(self).dev(), a)
                    },
                })
            }),
    {
        if entity.is_directory() {
            return Err(NoctFSError::InvalidArgument);
        }
        let ghost bs = self.bootsector;
        let ghost dev0 = self.dev();
        let ghost c = stored_chain(dev0, bs, directory_block);
        let ghost cf = stored_chain(dev0, bs, entity.start_block);
        let ghost s1 = dir_bytes(dev0, bs, directory_block);
        let ghost p1 = parse_stream(s1, 0);
        let off = match self.get_entity_offset(directory_block, entity) {
            None => {
                return Err(NoctFSError::NotFound);
            },
            Some(o) => o,
        };
        let ghost m = first_match(p1.recs, entity@, 0)->Some_0;
        proof {
            crate::dirspec::lemma_first_match_found(p1.recs, entity@, 0);
            lemma_consumed_reaches_end(s1, 0);
            lemma_consumed_prefix_bound(s1, 0, m);
            lemma_parse_suffix_step(s1, off as int);
            lemma_parse_at_encodes(s1, off as int);
            lemma_chain_len_bounded(dev0, bs, directory_block, c);
        }
        let mut data = self.read_chain_data_vec(directory_block);
        let fact = entity.fact_size() as usize;
        proof {
            assert(p1.recs[m] == entity@);
            assert(off + fact <= p1.end);
            assert(p1.end + 4 <= data@.len());
        }
        // Close the gap: slide everything after the record to the left.
        let len = data.len();
        let mut t: usize = off;
        while t < len - fact
            invariant
                off <= t <= len - fact,
                fact <= len,
                len == data@.len(),
                forall|u: int| #![trigger data@[u]] 0 <= u < off ==> data@[u] == s1[u],
                forall|u: int| #![trigger data@[u]] off <= u < t ==> data@[u] == s1[u + fact],
                forall|u: int| #![trigger data@[u]] t <= u < len ==> data@[u] == s1[u],
                s1.len() == len,
            decreases len - fact - t,
        {
            let v = data[t + fact];
            data.set(t, v);
            t = t + 1;
        }
        // Zero the vacated tail.
        while t < len
            invariant
                len - fact <= t <= len,
                fact <= len,
                off <= len - fact,
                len == data@.len(),
                forall|u: int| #![trigger data@[u]] 0 <= u < off ==> data@[u] == s1[u],
                forall|u: int| #![trigger data@[u]] off <= u < len - fact
                    ==> data@[u] == s1[u + fact],
                forall|u: int| #![trigger data@[u]] len - fact <= u < t ==> data@[u] == 0,
                s1.len() == len,
            decreases len - t,
        {
            data.set(t, 0);
            t = t + 1;
        }
        proof {
            lemma_remove_record(s1, data@, m);
        }
        // Free the file's chain, then write the compacted stream back.
        self.free_blocks(entity.start_block);
        proof {
            let devm = self.dev();
            crate::chainspec::lemma_chain_frame(dev0, devm, bs, directory_block, c);
            lemma_stored_chain(devm, bs, directory_block, c);
            lemma_chain_bytes_blocks(dev0, devm, bs, c);
            assert(dir_bytes(devm, bs, directory_block) == s1);
        }
        self.write_dir_stream(directory_block, &data);
        Ok(())
    }
}

/// Growing a directory's chain with zero blocks keeps its record stream:
/// the records, the terminator position, and the all-zero tail carry over.
#[verifier::rlimit(100)]
pub proof fn lemma_grow_keeps_stream(dev0: Seq<u8>, devf: Seq<u8>, bs: BootSector, dir: u64)
    requires
        bs.wf(),
        valid_chain(dev0, bs, dir),
        valid_chain(devf, bs, dir),
        dir_stream_wf(dir_bytes(dev0, bs, dir)),
        stored_chain(devf, bs, dir).len() >= stored_chain(dev0, bs, dir).len(),
        forall|i: int| 0 <= i < stored_chain(dev0, bs, dir).len()
            ==> #[trigger] stored_chain(devf, bs, dir)[i] == stored_chain(dev0, bs, dir)[i],
        forall|i: int| 0 <= i < stored_chain(dev0, bs, dir).len()
            ==> block_bytes(devf, bs, #[trigger] stored_chain(dev0, bs, dir)[i] as int)
                == block_bytes(dev0, bs, stored_chain(dev0, bs, dir)[i] as int),
        forall|m: int| stored_chain(dev0, bs, dir).len() <= m
                < stored_chain(devf, bs, dir).len()
            ==> block_bytes(devf, bs, #[trigger] stored_chain(devf, bs, dir)[m] as int)
                == zero_block_bytes(bs),
    ensures
        dir_stream_wf(dir_bytes(devf, bs, dir)),
        parse_stream(dir_bytes(devf, bs, dir), 0) == (ParsedDir {
            recs: parse_stream(dir_bytes(dev0, bs, dir), 0).recs,
            end: parse_stream(dir_bytes(dev0, bs, dir), 0).end,
            ok: true,
        }),
        dir_bytes(devf, bs, dir).len()
            == stored_chain(devf, bs, dir).len() * bs.block_size as nat,
{
    let c = stored_chain(dev0, bs, dir);
    let c2 = stored_chain(devf, bs, dir);
    let s1 = dir_bytes(dev0, bs, dir);
    let p1 = parse_stream(s1, 0);
    assert(is_chain_of(devf, bs, dir, c2));
    lemma_stream_extend(dev0, devf, bs, c, c2);
    let s2 = dir_bytes(devf, bs, dir);
    let pad = Seq::new(((c2.len() - c.len()) * bs.block_size as nat) as nat, |x: int| 0u8);
    assert(s2 == s1 + pad);
    assert forall|t: int| #![trigger s2[0 + t]] 0 <= t < s1.len()
        implies s2[0 + t] == s1[0 + t] by {}
    lemma_consumed_reaches_end(s1, 0);
    lemma_parse_join(s1, 0, s2, 0, p1.recs.len() as int);
    assert forall|j: int| p1.end <= j < p1.end + 4 implies s2[j] == 0 by {
        assert(s2[j] == s1[j]);
    }
    lemma_zero_header(s2, p1.end);
    assert(p1.recs.take(p1.recs.len() as int) =~= p1.recs);
    assert(parse_stream(s2, 0) == ParsedDir { recs: p1.recs, end: p1.end, ok: true });
    assert forall|j: int| p1.end <= j < s2.len() implies s2[j] == 0 by {
        if j < s1.len() {
            assert(s2[j] == s1[j]);
        }
    }
}

} // verus!
