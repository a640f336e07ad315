//! Writing file content and keeping the file's directory record current.

use vstd::prelude::*;
use vstd::arithmetic::div_mod::lemma_fundamental_div_mod;

use crate::bootsector::BootSector;
use crate::bytes::byte_at;
use crate::chainio::{chain_addr, chain_byte, lemma_chain_addr_injective};
use crate::chainwrite::chain_written;
use crate::chainspec::{
    map_entry, block_bytes, is_chain_of, valid_chain, stored_chain, block_zero_reserved,
    is_free, blocks_for_bytes, lemma_stored_chain, lemma_chain_frame, lemma_chain_distinct,
    lemma_valid_chain_members_not_free,
};
use crate::device::Device;
use crate::dirmut::{dir_bytes, lemma_chain_bytes_blocks, lemma_div_below_pub};
use crate::dirspec::{parse_stream, dir_stream_wf, first_match, lemma_first_match_found};
use crate::entity::{Entity, EntityView};
use crate::fs::NoctFS;
use crate::{BlockAddress, NoctFSError};

verus! {

/// An object whose blocks are disjoint from everything two operations
/// touched keeps its chain and its whole byte stream.
pub proof fn lemma_object_preserved(
    dev0: Seq<u8>, dev1: Seq<u8>, bs: BootSector, start: u64, c: Seq<u64>,
    t1: Seq<u64>, t2: Seq<u64>,
)
    requires
        bs.wf(),
        is_chain_of(dev0, bs, start, c),
        forall|i: int, j: int| 0 <= i < c.len() && 0 <= j < t1.len()
            ==> c[i] != t1[j],
        forall|i: int, j: int| 0 <= i < c.len() && 0 <= j < t2.len()
            ==> c[i] != t2[j],
        forall|j: int| 0 <= j < bs.block_map_count as int && !t1.contains(j as u64)
            && !t2.contains(j as u64)
            ==> map_entry(dev1, bs, j) == map_entry(dev0, bs, j),
        forall|b: int| 0 <= b < bs.block_map_count as int && !t1.contains(b as u64)
            && !t2.contains(b as u64)
            ==> block_bytes(dev1, bs, b) == block_bytes(dev0, bs, b),
    ensures
        is_chain_of(dev1, bs, start, c),
        stored_chain(dev1, bs, start) == c,
        crate::chainio::chain_bytes(dev1, bs, c) == crate::chainio::chain_bytes(dev0, bs, c),
{
    assert forall|i: int| 0 <= i < c.len()
        implies !t1.contains(#[trigger] c[i]) && !t2.contains(c[i]) by {
        if t1.contains(c[i]) {
            let w = choose|w: int| 0 <= w < t1.len() && t1[w] == c[i];
        }
        if t2.contains(c[i]) {
            let w = choose|w: int| 0 <= w < t2.len() && t2[w] == c[i];
        }
    }
    lemma_chain_frame(dev0, dev1, bs, start, c);
    lemma_stored_chain(dev1, bs, start, c);
    lemma_chain_bytes_blocks(dev0, dev1, bs, c);
}

impl<D: Device> NoctFS<D> {
    /// Write `data` into the file's chain at stream offset `offset`: those
    /// stream bytes become `data`, every other stream byte keeps its value,
    /// and nothing outside the file's blocks changes.
    #[verifier::rlimit(100)]
    #[verifier::spinoff_prover]
    fn fill_file(&mut self, entity: &Entity, data: &[u8], offset: u64)
        requires
            old(self).wf(),
            valid_chain(old(self).dev(), old(self).bootsector, entity.start_block),
            offset + data@.len() <= u64::MAX,
            offset + data@.len() <= stored_chain(old(self).dev(), old(self).bootsector,
                entity.start_block).len() * old(self).bootsector.block_size as nat,
        ensures
            final(self).bootsector == old(self).bootsector,
            ({
                let bs = old(self).bootsector;
                let c = stored_chain(old(self).dev(), bs, entity.start_block);
                let sf0 = dir_bytes(old(self).dev(), bs, entity.start_block);
                let sf = dir_bytes(final(self).dev(), bs, entity.start_block);
                &&& stored_chain(final(self).dev(), bs, entity.start_block) == c
                &&& valid_chain(final(self).dev(), bs, entity.start_block)
                &&& sf.len() == sf0.len()
                &&& forall|k: int| 0 <= k < data@.len()
                        ==> #[trigger] sf[offset + k] == data@[k]
                &&& forall|q: int| 0 <= q < sf.len()
                        && !(offset <= q < offset + data@.len())
                        ==> #[trigger] sf[q] == sf0[q]
                &&& forall|j: int| 0 <= j < old(self).bmc()
                        ==> map_entry(final(self).dev(), bs, j)
                            == map_entry(old(self).dev(), bs, j)
                &&& forall|b: int| 0 <= b < old(self).bmc() && !c.contains(b as u64)
                        ==> block_bytes(final(self).dev(), bs, b)
                            == block_bytes(old(self).dev(), bs, b)
                &&& forall|a: int| 0 <= a < bs.sector_size
                        ==> byte_at(final(self).dev(), a) == byte_at(old(self).dev(), a)
            }),
    {
        let ghost bs = self.bootsector;
        let ghost dev0 = self.dev();
        let ghost c = stored_chain(dev0, bs, entity.start_block);
        let ghost bszi = bs.block_size as int;
        proof {
            lemma_chain_distinct(dev0, bs, entity.start_block, c);
        }
        self.write_blocks_data(entity.start_block, data, offset);
        proof {
            let devf = self.dev();
            lemma_chain_frame(dev0, devf, bs, entity.start_block, c);
            lemma_stored_chain(devf, bs, entity.start_block, c);
            let sf0 = dir_bytes(dev0, bs, entity.start_block);
            let sf = dir_bytes(devf, bs, entity.start_block);
            // Every written byte lands at its stream position.
            assert forall|k: int| 0 <= k < data@.len()
                implies #[trigger] sf[offset + k] == data@[k] by {
                lemma_div_below_pub(offset + k, c.len() as int, bszi);
                assert(byte_at(devf, chain_addr(bs, c, offset + k)) == data@[k]);
            }
            // Every other stream byte is exactly what it was.
            assert forall|q: int| 0 <= q < sf.len()
                && !(offset <= q < offset + data@.len())
                implies #[trigger] sf[q] == sf0[q] by {
                lemma_div_below_pub(q, c.len() as int, bszi);
                assert(!chain_written(bs, c, offset as int, data@.len() as int,
                    chain_addr(bs, c, q))) by {
                    if chain_written(bs, c, offset as int, data@.len() as int,
                        chain_addr(bs, c, q)) {
                        let k = choose|k: int| 0 <= k < data@.len()
                            && (offset + k) / bszi < c.len()
                            && chain_addr(bs, c, q)
                                == #[trigger] chain_addr(bs, c, offset + k);
                        lemma_chain_addr_injective(bs, c, q, offset + k);
                    }
                }
                assert(byte_at(devf, chain_addr(bs, c, q))
                    == byte_at(dev0, chain_addr(bs, c, q)));
            }
        }
    }

    /// Bring the file's chain to `tgt` blocks and write `data` at `offset`:
    /// the written range holds `data`, the retained earlier bytes keep their
    /// values, and nothing outside the file's old and new blocks changes.
    #[verifier::rlimit(100)]
    #[verifier::spinoff_prover]
    fn resize_and_fill(
        &mut self, entity: &Entity, data: &[u8], offset: u64, tgt: u64,
    ) -> (r: Result<(), NoctFSError>)
        requires
            old(self).wf(),
            entity.start_block < old(self).bootsector.block_map_count as u64,
            valid_chain(old(self).dev(), old(self).bootsector, entity.start_block),
            block_zero_reserved(old(self).dev(), old(self).bootsector),
            offset + data@.len() <= u64::MAX,
            offset + data@.len() <= tgt * old(self).bootsector.block_size as nat,
            tgt <= u32::MAX,
            tgt >= 1,
        ensures
            final(self).bootsector == old(self).bootsector,
            ({
                let bs = old(self).bootsector;
                let cf = stored_chain(old(self).dev(), bs, entity.start_block);
                &&& (r is Err <==> (tgt > cf.len()
                        && crate::chainspec::num_free_from(old(self).dev(), bs, 0)
                            < (tgt - cf.len()) as nat))
                &&& (r is Err ==> final(self).dev() == old(self).dev()
                        && r == Err::<(), NoctFSError>(NoctFSError::OutOfSpace))
                &&& (r is Ok ==> ({
                    let cf2 = stored_chain(final(self).dev(), bs, entity.start_block);
                    let sf0 = dir_bytes(old(self).dev(), bs, entity.start_block);
                    let sf = dir_bytes(final(self).dev(), bs, entity.start_block);
                    &&& cf2.len() == tgt
                    &&& valid_chain(final(self).dev(), bs, entity.start_block)
                    &&& forall|i: int| 0 <= i < cf.len() && i < tgt
                            ==> #[trigger] cf2[i] == cf[i]
                    &&& forall|k: int| 0 <= k < data@.len()
                            ==> #[trigger] sf[offset + k] == data@[k]
                    &&& forall|q: int| 0 <= q < offset && q < sf0.len() && q < sf.len()
                            ==> #[trigger] sf[q] == sf0[q]
                    &&& forall|j: int| 0 <= j < old(self).bmc() && !cf.contains(j as u64)
                            && !cf2.contains(j as u64)
                            ==> map_entry(final(self).dev(), bs, j)
                                == map_entry(old(self).dev(), bs, j)
                    &&& forall|b: int| 0 <= b < old(self).bmc() && !cf.contains(b as u64)
                            && !cf2.contains(b as u64)
                            ==> block_bytes(final(self).dev(), bs, b)
                                == block_bytes(old(self).dev(), bs, b)
                    &&& forall|m: int| cf.len() <= m < cf2.len()
                            ==> is_free(old(self).dev(), bs, #[trigger] cf2[m] as int)
                    &&& forall|a: int| 0 <= a < bs.sector_size
                            ==> byte_at(final(self).dev(), a) == byte_at(old(self).dev(), a)
                }))
            }),
    {
        let ghost bs = self.bootsector;
        let ghost dev0 = self.dev();
        let ghost cf = stored_chain(dev0, bs, entity.start_block);
        let ghost bszi = bs.block_size as int;
        match self.set_chain_size(entity.start_block, tgt as usize) {
            Err(e) => {
                return Err(e);
            },
            Ok(()) => {},
        }
        let ghost dev1 = self.dev();
        let ghost cf2 = stored_chain(dev1, bs, entity.start_block);
        proof {
            // The retained blocks keep their data through the resize.
            lemma_valid_chain_members_not_free(dev0, bs, entity.start_block);
            if tgt > cf.len() {
                assert forall|i: int| 0 <= i < cf.len()
                    implies block_bytes(dev1, bs, #[trigger] cf[i] as int)
                        == block_bytes(dev0, bs, cf[i] as int) by {
                    assert(!cf2.skip(cf.len() as int).contains(cf[i])) by {
                        if cf2.skip(cf.len() as int).contains(cf[i]) {
                            let w = choose|w: int| 0 <= w < cf2.len() - cf.len()
                                && cf2.skip(cf.len() as int)[w] == cf[i];
                            assert(cf2[cf.len() + w] == cf[i]);
                            assert(is_free(dev0, bs, cf[i] as int));
                        }
                    }
                }
            }
        }
        self.fill_file(entity, data, offset);
        proof {
            let devf = self.dev();
            let sf0 = dir_bytes(dev0, bs, entity.start_block);
            let sfm = dir_bytes(dev1, bs, entity.start_block);
            let sf = dir_bytes(devf, bs, entity.start_block);
            // A byte before the written range and inside the retained prefix
            // reads as it did before the resize.
            assert forall|q: int| 0 <= q < offset && q < sf0.len() && q < sf.len()
                implies #[trigger] sf[q] == sf0[q] by {
                assert(sf[q] == sfm[q]);
                lemma_div_below_pub(q, cf.len() as int, bszi);
                lemma_div_below_pub(q, cf2.len() as int, bszi);
                assert(cf2[q / bszi] == cf[q / bszi]);
                assert(block_bytes(dev1, bs, cf[q / bszi] as int)
                    == block_bytes(dev0, bs, cf[q / bszi] as int));
                assert(sfm[q] == byte_at(dev1, chain_addr(bs, cf2, q)));
                assert(sf0[q] == byte_at(dev0, chain_addr(bs, cf, q)));
                assert(chain_addr(bs, cf2, q) == chain_addr(bs, cf, q));
                assert(block_bytes(dev1, bs, cf[q / bszi] as int)[q % bszi]
                    == block_bytes(dev0, bs, cf[q / bszi] as int)[q % bszi]);
            }
        }
        Ok(())
    }

    /// Write file content: bring the file's chain to exactly the blocks the
    /// new end of data needs (at least one), write the bytes, and rewrite
    /// the file's directory record with its new size. Nothing else on the
    /// device changes: not the chainmap entries or data of other objects,
    /// not the boot sector.
    #[verifier::rlimit(100)]
    #[verifier::spinoff_prover]
    pub fn write_contents_by_entity(
        &mut self, directory_block: BlockAddress, entity: &Entity, data: &[u8], offset: u64,
    ) -> (r: Result<(), NoctFSError>)
        requires
            old(self).wf(),
            valid_chain(old(self).dev(), old(self).bootsector, directory_block),
            dir_stream_wf(dir_bytes(old(self).dev(), old(self).bootsector, directory_block)),
            entity@.wf(),
            entity.start_block < old(self).bootsector.block_map_count as u64,
            valid_chain(old(self).dev(), old(self).bootsector, entity.start_block),
            block_zero_reserved(old(self).dev(), old(self).bootsector),
            forall|i: int, j: int| 0 <= i < stored_chain(old(self).dev(),
                    old(self).bootsector, directory_block).len()
                    && 0 <= j < stored_chain(old(self).dev(), old(self).bootsector,
                        entity.start_block).len()
                ==> stored_chain(old(self).dev(), old(self).bootsector,
                        directory_block)[i]
                    != stored_chain(old(self).dev(), old(self).bootsector,
                        entity.start_block)[j],
            offset + data@.len() <= u64::MAX,
            blocks_for_bytes(offset + data@.len(), old(self).bootsector.block_size as int)
                <= u32::MAX,
        ensures
            final(self).bootsector == old(self).bootsector,
            ({
                let bs = old(self).bootsector;
                let s1 = dir_bytes(old(self).dev(), bs, directory_block);
                let p1 = parse_stream(s1, 0);
                let cd = stored_chain(old(self).dev(), bs, directory_block);
                let cf = stored_chain(old(self).dev(), bs, entity.start_block);
                let end = offset + data@.len();
                let target = {
                    let t = blocks_for_bytes(end, bs.block_size as int);
                    if t < 1 { 1int } else { t }
                };
                match first_match(p1.recs, entity@, 0) {
                    None => r == Err::<(), NoctFSError>(NoctFSError::NotFound)
                        && final(self).dev() == old(self).dev(),
                    Some(m) => {
                        &&& (r is Err <==> (target > cf.len()
                                && crate::chainspec::num_free_from(old(self).dev(), bs, 0)
                                    < (target - cf.len()) as nat))
                        &&& (r is Err ==> final(self).dev() == old(self).dev()
                                && r == Err::<(), NoctFSError>(NoctFSError::OutOfSpace))
                        &&& (r is Ok ==> ({
                            let cf2 = stored_chain(final(self).dev(), bs,
                                entity.start_block);
                            let sf0 = dir_bytes(old(self).dev(), bs, entity.start_block);
                            let sf = dir_bytes(final(self).dev(), bs, entity.start_block);
                            let s2 = dir_bytes(final(self).dev(), bs, directory_block);
                            &&& cf2.len() == target
                            &&& valid_chain(final(self).dev(), bs, entity.start_block)
                            &&& forall|k: int| 0 <= k < data@.len()
                                    ==> #[trigger] sf[offset + k] == data@[k]
                            &&& forall|q: int| 0 <= q < offset && q < sf0.len()
                                    ==> #[trigger] sf[q] == sf0[q]
                            &&& valid_chain(final(self).dev(), bs, directory_block)
                            &&& stored_chain(final(self).dev(), bs, directory_block) == cd
                            &&& dir_stream_wf(s2)
                            &&& parse_stream(s2, 0) == (crate::dirspec::ParsedDir {
                                    recs: p1.recs.update(m, EntityView {
                                        size: end as u64,
                                        ..entity@
                                    }),
                                    end: p1.end,
                                    ok: true,
                                })
                            &&& forall|j: int| 0 <= j < old(self).bmc()
                                    && !cf.contains(j as u64) && !cf2.contains(j as u64)
                                    ==> map_entry(final(self).dev(), bs, j)
                                        == map_entry(old(self).dev(), bs, j)
                            &&& forall|b: int| 0 <= b < old(self).bmc()
                                    && !cf.contains(b as u64) && !cf2.contains(b as u64)
                                    && !cd.contains(b as u64)
                                    ==> block_bytes(final(self).dev(), bs, b)
                                        == block_bytes(old(self).dev(), bs, b)
                            &&& forall|a: int| 0 <= a < bs.sector_size
                                    ==> byte_at(final(self).dev(), a)
                                        == byte_at(old(self).dev(), a)
                        }))
                    },
                }
            }),
    {
        let ghost bs = self.bootsector;
        let ghost dev0 = self.dev();
        let ghost cd = stored_chain(dev0, bs, directory_block);
        let ghost cf = stored_chain(dev0, bs, entity.start_block);
        let ghost s1 = dir_bytes(dev0, bs, directory_block);
        let ghost p1 = parse_stream(s1, 0);
        // Locate the record first: a missing record changes nothing.
        let found = self.get_entity_offset(directory_block, entity);
        if found.is_none() {
            return Err(NoctFSError::NotFound);
        }
        let ghost m = first_match(p1.recs, entity@, 0)->Some_0;
        proof {
            lemma_first_match_found(p1.recs, entity@, 0);
        }
        let end: u64 = offset + data.len() as u64;
        let bsz: u64 = self.bootsector.block_size as u64;
        let tgt0: u64 = end / bsz + if end % bsz != 0 { 1u64 } else { 0u64 };
        let tgt: u64 = if tgt0 < 1 { 1 } else { tgt0 };
        proof {
            assert(tgt0 as int == blocks_for_bytes(end as int, bsz as int));
            // The chosen block count covers the written range.
            let bi = bsz as int;
            let q = end as int / bi;
            let rm = end as int % bi;
            lemma_fundamental_div_mod(end as int, bi);
            assert((rm == 0 ==> q * bi >= end) && (rm != 0 ==> (q + 1) * bi >= end))
                by (nonlinear_arith)
                requires bi > 0, end as int == bi * q + rm, 0 <= rm, rm < bi,
            ;
            assert((tgt0 as int) * bi >= end || tgt0 == 0);
            assert(tgt >= tgt0 && tgt >= 1);
            assert((tgt as int) * bi >= (tgt0 as int) * bi) by (nonlinear_arith)
                requires tgt >= tgt0, bi >= 0,
            ;
            assert((tgt as int) * bi >= bi) by (nonlinear_arith)
                requires tgt >= 1, bi >= 0,
            ;
        }
        match self.resize_and_fill(entity, data, offset, tgt) {
            Err(e) => {
                return Err(e);
            },
            Ok(()) => {},
        }
        let ghost dev2 = self.dev();
        let ghost cf2 = stored_chain(dev2, bs, entity.start_block);
        proof {
            // The directory sits in blocks the file never touched.
            lemma_valid_chain_members_not_free(dev0, bs, entity.start_block);
            assert forall|i: int, j: int| 0 <= i < cd.len() && 0 <= j < cf2.len()
                implies cd[i] != cf2[j] by {
                if j < cf.len() {
                    assert(cf2[j] == cf[j]);
                } else {
                    assert(is_free(dev0, bs, cf2[j] as int));
                    assert(!is_free(dev0, bs, cd[i] as int)) by {
                        lemma_valid_chain_members_not_free(dev0, bs, directory_block);
                    }
                }
            }
            lemma_object_preserved(dev0, dev2, bs, directory_block, cd, cf, cf2);
            assert(dir_bytes(dev2, bs, directory_block) == s1);
        }
        let mut new_name: Vec<u8> = vstd::slice::slice_to_vec(entity.name.as_slice());
        let new_entity = Entity {
            name: new_name,
            size: end,
            start_block: entity.start_block,
            flags: entity.flags,
            vendor_data_size: entity.vendor_data_size,
        };
        proof {
            assert(new_entity@ == EntityView { size: end, ..entity@ });
        }
        match self.overwrite_entity_header(directory_block, entity, &new_entity) {
            None => {
                proof {
                    assert(false);
                }
                Err(NoctFSError::NotFound)
            },
            Some(()) => {
                proof {
                    let devf = self.dev();
                    // The record rewrite stays inside the directory's blocks,
                    // which hold none of the file's bytes.
                    assert forall|i: int, j: int| 0 <= i < cf2.len() && 0 <= j < cd.len()
                        implies cf2[i] != cd[j] by {
                        assert(cd[j] != cf2[i]);
                    }
                    assert(is_chain_of(dev2, bs, entity.start_block, cf2));
                    lemma_object_preserved(dev2, devf, bs, entity.start_block, cf2, cd,
                        Seq::<u64>::empty());
                    assert(dir_bytes(devf, bs, entity.start_block)
                        == dir_bytes(dev2, bs, entity.start_block));
                }
                Ok(())
            },
        }
    }
}

} // verus!
