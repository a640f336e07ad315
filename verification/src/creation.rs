//! Creating files and subdirectories.

use vstd::prelude::*;

use crate::bytes::byte_at;
use crate::chainspec::{
    map_entry, block_bytes, is_chain_of, valid_chain, stored_chain, block_zero_reserved,
    is_free, first_free_from, free_seq, num_free_from, blocks_for_bytes,
    lemma_first_free_props, lemma_free_seq_props, lemma_stored_chain, lemma_chain_frame,
    lemma_chain_distinct,
};
use crate::chainmap::zero_block_bytes;
use crate::device::Device;
use crate::dirmut::{dir_bytes, lemma_chain_bytes_blocks};
use crate::dirspec::{ParsedDir, parse_stream, dir_stream_wf};
use crate::entity::{Entity, EntityView};
use crate::facade::{dot_view, dotdot_view, lemma_zero_stream_wf};
use crate::fs::NoctFS;
use crate::{BlockAddress, NoctFSError};

verus! {

/// Creating an entity under `dir` is out of space: either no block is free
/// for its content, or the directory must grow to hold the record and the
/// remaining free blocks cannot cover that growth.
pub open spec fn creation_blocked(
    dev: Seq<u8>, bs: crate::bootsector::BootSector, dir: u64, name_len: int,
) -> bool {
    let s1 = dir_bytes(dev, bs, dir);
    let needed = parse_stream(s1, 0).end + name_len + 36;
    ||| num_free_from(dev, bs, 0) < 1
    ||| (needed > s1.len()
        && num_free_from(dev, bs, 0) - 1
            < blocks_for_bytes(needed, bs.block_size as int)
                - stored_chain(dev, bs, dir).len())
}

/// After one block is taken, creating the entity is blocked exactly when
/// the directory must grow and the remaining free blocks cannot cover it.
pub proof fn lemma_blocked_shift(
    dev0: Seq<u8>, dev1: Seq<u8>, bs: crate::bootsector::BootSector, dir: u64, nlen: int,
)
    requires
        bs.wf(),
        dir_bytes(dev1, bs, dir) == dir_bytes(dev0, bs, dir),
        stored_chain(dev1, bs, dir) == stored_chain(dev0, bs, dir),
        num_free_from(dev1, bs, 0) == num_free_from(dev0, bs, 0) - 1,
        num_free_from(dev0, bs, 0) >= 1,
    ensures
        creation_blocked(dev0, bs, dir, nlen) <==> ({
            let s = dir_bytes(dev1, bs, dir);
            let needed = parse_stream(s, 0).end + nlen + 36;
            needed > s.len()
                && num_free_from(dev1, bs, 0)
                    < (blocks_for_bytes(needed, bs.block_size as int)
                        - stored_chain(dev1, bs, dir).len()) as nat
        }),
{
    let s = dir_bytes(dev0, bs, dir);
    let c = stored_chain(dev0, bs, dir);
    let needed = parse_stream(s, 0).end + nlen + 36;
    let bi = bs.block_size as int;
    if needed > s.len() {
        // The record overruns the stream, so the block count it needs
        // exceeds the chain's length and the shortfall is positive.
        let q = needed / bi;
        let rm = needed % bi;
        vstd::arithmetic::div_mod::lemma_fundamental_div_mod(needed, bi);
        assert((rm == 0 ==> q > c.len()) && (rm != 0 ==> q >= c.len()))
            by (nonlinear_arith)
            requires
                bi > 0,
                needed > c.len() * bi,
                needed == bi * q + rm,
                0 <= rm,
                rm < bi,
        ;
        assert(blocks_for_bytes(needed, bi) > c.len());
        let x = blocks_for_bytes(needed, bi) - c.len();
        assert((x as nat) == x);
    }
}

impl<D: Device> NoctFS<D> {
    /// Create a plain file of size zero in the directory at
    /// `directory_block`: allocate one block for its content and append its
    /// record.
    #[verifier::rlimit(100)]
    #[verifier::spinoff_prover]
    pub fn create_file(&mut self, directory_block: BlockAddress, name: Vec<u8>)
        -> (r: Result<Entity, NoctFSError>)
        requires
            old(self).wf(),
            directory_block < old(self).bootsector.block_map_count as u64,
            valid_chain(old(self).dev(), old(self).bootsector, directory_block),
            block_zero_reserved(old(self).dev(), old(self).bootsector),
            dir_stream_wf(dir_bytes(old(self).dev(), old(self).bootsector, directory_block)),
            name@.len() + 32 <= u32::MAX,
            blocks_for_bytes(parse_stream(dir_bytes(old(self).dev(), old(self).bootsector,
                directory_block), 0).end + name@.len() + 36,
                old(self).bootsector.block_size as int) <= u32::MAX,
            parse_stream(dir_bytes(old(self).dev(), old(self).bootsector,
                directory_block), 0).end + name@.len() + 36 <= u64::MAX,
        ensures
            final(self).bootsector == old(self).bootsector,
            ({
                let bs = old(self).bootsector;
                let s1 = dir_bytes(old(self).dev(), bs, directory_block);
                let p1 = parse_stream(s1, 0);
                let c = stored_chain(old(self).dev(), bs, directory_block);
                &&& (r is Err ==> r->Err_0 == NoctFSError::OutOfSpace)
                &&& (r is Err <==> creation_blocked(old(self).dev(), bs,
                        directory_block, name@.len() as int))
                &&& (r is Ok ==> ({
                    let e = r->Ok_0;
                    let blk = first_free_from(old(self).dev(), bs, 0)->Some_0;
                    let s2 = dir_bytes(final(self).dev(), bs, directory_block);
                    &&& e@ == (EntityView { name: name@, size: 0, start_block: blk,
                            flags: 0, vendor_data_size: 0 })
                    &&& e@.wf()
                    &&& first_free_from(old(self).dev(), bs, 0) is Some
                    &&& dir_stream_wf(s2)
                    &&& parse_stream(s2, 0) == (ParsedDir {
                            recs: p1.recs.push(e@),
                            end: p1.end + e@.spec_fact_size(),
                            ok: true,
                        })
                    &&& valid_chain(final(self).dev(), bs, directory_block)
                    &&& valid_chain(final(self).dev(), bs, blk)
                    &&& stored_chain(final(self).dev(), bs, blk) == seq![blk]
                    &&& block_zero_reserved(final(self).dev(), bs)
                }))
            }),
    {
        let ghost bs = self.bootsector;
        let ghost dev0 = self.dev();
        let ghost c = stored_chain(dev0, bs, directory_block);
        let ghost s1 = dir_bytes(dev0, bs, directory_block);
        let ghost p1 = parse_stream(s1, 0);
        let ghost nlen = name@.len() as int;
        proof {
            lemma_free_seq_props(dev0, bs, 0, 1);
            lemma_first_free_props(dev0, bs, 0);
            lemma_chain_distinct(dev0, bs, directory_block, c);
        }
        let block = match self.allocate_blocks(1) {
            None => {
                proof {
                    assert(creation_blocked(dev0, bs, directory_block, nlen));
                }
                return Err(NoctFSError::OutOfSpace);
            },
            Some(b) => b,
        };
        let ghost dev1 = self.dev();
        let entity = Entity::file(name, 0, block);
        proof {
            let picked = free_seq(dev0, bs, 0, 1)->Some_0;
            assert(picked =~= seq![first_free_from(dev0, bs, 0)->Some_0]);
            assert(block == picked[0]);
            assert(block != 0) by {
                assert(is_free(dev0, bs, picked[0] as int));
            }
            assert(is_chain_of(dev1, bs, block, seq![block]));
            lemma_stored_chain(dev1, bs, block, seq![block]);
            // The directory's chain and stream are untouched by the
            // allocation: its blocks were in use, so none was picked.
            assert forall|i: int| 0 <= i < c.len()
                implies !picked.contains(#[trigger] c[i]) by {
                crate::chainspec::lemma_valid_chain_members_not_free(dev0, bs,
                    directory_block);
                if picked.contains(c[i]) {
                    let w = choose|w: int| 0 <= w < 1 && picked[w] == c[i];
                    assert(is_free(dev0, bs, c[i] as int));
                }
            }
            lemma_chain_frame(dev0, dev1, bs, directory_block, c);
            lemma_stored_chain(dev1, bs, directory_block, c);
            lemma_chain_bytes_blocks(dev0, dev1, bs, c);
            assert(dir_bytes(dev1, bs, directory_block) == s1);
            assert(map_entry(dev1, bs, 0) == map_entry(dev0, bs, 0)) by {
                assert(!picked.contains(0u64)) by {
                    if picked.contains(0u64) {
                        assert(is_free(dev0, bs, 0));
                    }
                }
            }
            // One free block was spent: the free count drops by exactly one.
            assert forall|j: int| 0 <= j < bs.block_map_count as int && j != block
                implies map_entry(dev1, bs, j) == map_entry(dev0, bs, j) by {
                assert(!picked.contains(j as u64)) by {
                    if picked.contains(j as u64) {
                        let w = choose|w: int| 0 <= w < 1 && picked[w] == j as u64;
                    }
                }
            }
            assert(!is_free(dev1, bs, block as int)) by {
                assert(map_entry(dev1, bs, block as int)
                    == crate::END_OF_CHAIN);
            }
            crate::chainspec::lemma_num_free_one_less(dev0, dev1, bs, block as int, 0);
        }
        match self.write_entity(directory_block, &entity) {
            Err(e) => {
                proof {
                    assert(entity@.spec_fact_size() == nlen + 32);
                    lemma_blocked_shift(dev0, dev1, bs, directory_block, nlen);
                    assert(creation_blocked(dev0, bs, directory_block, nlen));
                }
                Err(e)
            },
            Ok(()) => {
                proof {
                    assert(entity@.spec_fact_size() == nlen + 32);
                    lemma_blocked_shift(dev0, dev1, bs, directory_block, nlen);
                    assert(!creation_blocked(dev0, bs, directory_block, nlen));
                    let devf = self.dev();
                    let c2 = stored_chain(devf, bs, directory_block);
                    // The fresh block is not part of the directory's grown
                    // chain, so its entry stays a lone terminator.
                    assert(!c.contains(block)) by {
                        crate::chainspec::lemma_valid_chain_members_not_free(dev0, bs,
                            directory_block);
                        if c.contains(block) {
                            let w = choose|w: int| 0 <= w < c.len() && c[w] == block;
                            assert(is_free(dev0, bs, c[w] as int));
                        }
                    }
                    assert(!c2.contains(block)) by {
                        if c2.contains(block) {
                            let w = choose|w: int| 0 <= w < c2.len() && c2[w] == block;
                            if w < c.len() {
                                assert(c.contains(block));
                            } else {
                                assert(c2.skip(c.len() as int)[w - c.len()] == block);
                                assert(c2.skip(c.len() as int).contains(block));
                                assert(block_bytes(devf, bs, block as int)
                                    == block_bytes(dev1, bs, block as int));
                            }
                        }
                    }
                    assert(map_entry(devf, bs, block as int)
                        == map_entry(dev1, bs, block as int));
                    assert(is_chain_of(devf, bs, block, seq![block]));
                    lemma_stored_chain(devf, bs, block, seq![block]);
                    assert(map_entry(devf, bs, 0) == map_entry(dev1, bs, 0)) by {
                        assert(!c.contains(0u64));
                        assert(!c2.contains(0u64)) by {
                            if c2.contains(0u64) {
                                assert(valid_chain(devf, bs, directory_block));
                                let w = choose|w: int| 0 <= w < c2.len()
                                    && c2[w] == 0u64;
                            }
                        }
                    }
                }
                Ok(entity)
            },
        }
    }

    /// Give a freshly allocated, zero-filled child directory its `.` and
    /// `..` records. Cannot run out of space: both fit in the child's block.
    #[verifier::rlimit(100)]
    #[verifier::spinoff_prover]
    fn init_child_directory(&mut self, directory_block: BlockAddress, child: BlockAddress)
        -> (r: Result<(), NoctFSError>)
        requires
            old(self).wf(),
            child < old(self).bootsector.block_map_count as u64,
            valid_chain(old(self).dev(), old(self).bootsector, child),
            stored_chain(old(self).dev(), old(self).bootsector, child) == seq![child],
            block_bytes(old(self).dev(), old(self).bootsector, child as int)
                == zero_block_bytes(old(self).bootsector),
            block_zero_reserved(old(self).dev(), old(self).bootsector),
        ensures
            final(self).bootsector == old(self).bootsector,
            r is Ok,
            ({
                let bs = old(self).bootsector;
                let sc = dir_bytes(final(self).dev(), bs, child);
                &&& valid_chain(final(self).dev(), bs, child)
                &&& dir_stream_wf(sc)
                &&& parse_stream(sc, 0).recs
                        == seq![dot_view(child), dotdot_view(directory_block)]
                &&& forall|j: int| 0 <= j < old(self).bmc()
                        ==> map_entry(final(self).dev(), bs, j)
                            == map_entry(old(self).dev(), bs, j)
                &&& forall|b: int| 0 <= b < old(self).bmc() && b != child
                        ==> block_bytes(final(self).dev(), bs, b)
                            == block_bytes(old(self).dev(), bs, b)
            }),
    {
        let ghost bs = self.bootsector;
        let ghost dev2 = self.dev();
        proof {
            lemma_zero_stream_wf(dev2, bs, child);
            assert(dir_bytes(dev2, bs, child).len() >= 512) by {
                assert(stored_chain(dev2, bs, child).len() * bs.block_size as nat
                    == 1 * bs.block_size as nat);
            }
        }
        let mut dot_name: Vec<u8> = Vec::new();
        dot_name.push(46u8);
        proof {
            assert(dot_name@ =~= seq![46u8]);
        }
        let dot = Entity::directory(dot_name, 0, child);
        proof {
            assert(blocks_for_bytes(0 + dot@.spec_fact_size() + 4,
                bs.block_size as int) <= u32::MAX) by {
                assert(37int % (bs.block_size as int) == 37
                    && 37int / (bs.block_size as int) == 0) by (nonlinear_arith)
                    requires bs.block_size >= 512,
                ;
            }
        }
        match self.write_entity(child, &dot) {
            Err(_) => {
                proof {
                    assert(false);
                }
                return Err(NoctFSError::OutOfSpace);
            },
            Ok(()) => {},
        }
        let ghost dev3 = self.dev();
        let mut dotdot_name: Vec<u8> = Vec::new();
        dotdot_name.push(46u8);
        dotdot_name.push(46u8);
        proof {
            assert(dotdot_name@ =~= seq![46u8, 46u8]);
        }
        let dotdot = Entity::directory(dotdot_name, 0, directory_block);
        proof {
            let sc = dir_bytes(dev3, bs, child);
            assert(parse_stream(sc, 0).recs =~= seq![dot_view(child)]);
            assert(parse_stream(sc, 0).end == 33);
            assert(sc.len() >= 512) by {
                assert(stored_chain(dev3, bs, child) == seq![child]);
                assert(stored_chain(dev3, bs, child).len() * bs.block_size as nat
                    == 1 * bs.block_size as nat);
            }
            assert(blocks_for_bytes(33 + dotdot@.spec_fact_size() + 4,
                bs.block_size as int) <= u32::MAX) by {
                assert(71int % (bs.block_size as int) == 71
                    && 71int / (bs.block_size as int) == 0) by (nonlinear_arith)
                    requires bs.block_size >= 512,
                ;
            }
        }
        match self.write_entity(child, &dotdot) {
            Err(_) => {
                proof {
                    assert(false);
                }
                return Err(NoctFSError::OutOfSpace);
            },
            Ok(()) => {},
        }
        proof {
            let devf = self.dev();
            assert(parse_stream(dir_bytes(devf, bs, child), 0).recs
                =~= seq![dot_view(child), dotdot_view(directory_block)]);
        }
        Ok(())
    }

    /// Create a subdirectory in the directory at `directory_block`: allocate
    /// a block for it, append its record to the parent, and give the child
    /// its `.` and `..` records.
    #[verifier::rlimit(100)]
    #[verifier::spinoff_prover]
    pub fn create_directory(&mut self, directory_block: BlockAddress, name: Vec<u8>)
        -> (r: Result<Entity, NoctFSError>)
        requires
            old(self).wf(),
            directory_block < old(self).bootsector.block_map_count as u64,
            valid_chain(old(self).dev(), old(self).bootsector, directory_block),
            block_zero_reserved(old(self).dev(), old(self).bootsector),
            dir_stream_wf(dir_bytes(old(self).dev(), old(self).bootsector, directory_block)),
            name@.len() + 32 <= u32::MAX,
            blocks_for_bytes(parse_stream(dir_bytes(old(self).dev(), old(self).bootsector,
                directory_block), 0).end + name@.len() + 36,
                old(self).bootsector.block_size as int) <= u32::MAX,
            parse_stream(dir_bytes(old(self).dev(), old(self).bootsector,
                directory_block), 0).end + name@.len() + 36 <= u64::MAX,
        ensures
            final(self).bootsector == old(self).bootsector,
            ({
                let bs = old(self).bootsector;
                let s1 = dir_bytes(old(self).dev(), bs, directory_block);
                let p1 = parse_stream(s1, 0);
                let c = stored_chain(old(self).dev(), bs, directory_block);
                &&& (r is Err ==> r->Err_0 == NoctFSError::OutOfSpace)
                &&& (r is Err <==> creation_blocked(old(self).dev(), bs,
                        directory_block, name@.len() as int))
                &&& (r is Ok ==> ({
                    let e = r->Ok_0;
                    let blk = first_free_from(old(self).dev(), bs, 0)->Some_0;
                    let s2 = dir_bytes(final(self).dev(), bs, directory_block);
                    let sc = dir_bytes(final(self).dev(), bs, blk);
                    &&& e@ == (EntityView { name: name@, size: 0, start_block: blk,
                            flags: 1, vendor_data_size: 0 })
                    &&& e@.wf()
                    &&& first_free_from(old(self).dev(), bs, 0) is Some
                    &&& dir_stream_wf(s2)
                    &&& parse_stream(s2, 0).recs == p1.recs.push(e@)
                    &&& valid_chain(final(self).dev(), bs, directory_block)
                    &&& valid_chain(final(self).dev(), bs, blk)
                    &&& dir_stream_wf(sc)
                    &&& parse_stream(sc, 0).recs == seq![dot_view(blk), dotdot_view(
                            directory_block)]
                    &&& block_zero_reserved(final(self).dev(), bs)
                }))
            }),
    {
        let ghost bs = self.bootsector;
        let ghost dev0 = self.dev();
        let block = match self.create_file_block(directory_block, name) {
            Err(e) => {
                return Err(e);
            },
            Ok(b) => b,
        };
        let ghost dev2 = self.dev();
        match self.init_child_directory(directory_block, block.1) {
            Err(e) => {
                proof {
                    assert(false);
                }
                return Err(e);
            },
            Ok(()) => {},
        }
        proof {
            let devf = self.dev();
            let cp = stored_chain(dev2, bs, directory_block);
            lemma_chain_frame(dev2, devf, bs, directory_block, cp);
            lemma_stored_chain(devf, bs, directory_block, cp);
            assert forall|i: int| 0 <= i < cp.len()
                implies block_bytes(devf, bs, #[trigger] cp[i] as int)
                    == block_bytes(dev2, bs, cp[i] as int) by {
                assert(cp[i] != block.1);
            }
            lemma_chain_bytes_blocks(dev2, devf, bs, cp);
            assert(dir_bytes(devf, bs, directory_block)
                == dir_bytes(dev2, bs, directory_block));
        }
        Ok(block.0)
    }

    /// The shared first half of creating an entity: allocate its block and
    /// append its record (a directory record here) to the parent.
    #[verifier::rlimit(100)]
    #[verifier::spinoff_prover]
    fn create_file_block(&mut self, directory_block: BlockAddress, name: Vec<u8>)
        -> (r: Result<(Entity, BlockAddress), NoctFSError>)
        requires
            old(self).wf(),
            directory_block < old(self).bootsector.block_map_count as u64,
            valid_chain(old(self).dev(), old(self).bootsector, directory_block),
            block_zero_reserved(old(self).dev(), old(self).bootsector),
            dir_stream_wf(dir_bytes(old(self).dev(), old(self).bootsector, directory_block)),
            name@.len() + 32 <= u32::MAX,
            blocks_for_bytes(parse_stream(dir_bytes(old(self).dev(), old(self).bootsector,
                directory_block), 0).end + name@.len() + 36,
                old(self).bootsector.block_size as int) <= u32::MAX,
            parse_stream(dir_bytes(old(self).dev(), old(self).bootsector,
                directory_block), 0).end + name@.len() + 36 <= u64::MAX,
        ensures
            final(self).bootsector == old(self).bootsector,
            ({
                let bs = old(self).bootsector;
                let s1 = dir_bytes(old(self).dev(), bs, directory_block);
                let p1 = parse_stream(s1, 0);
                let c = stored_chain(old(self).dev(), bs, directory_block);
                &&& (r is Err ==> r->Err_0 == NoctFSError::OutOfSpace)
                &&& (r is Err <==> creation_blocked(old(self).dev(), bs,
                        directory_block, name@.len() as int))
                &&& (r is Ok ==> ({
                    let e = r->Ok_0.0;
                    let blk = r->Ok_0.1;
                    let s2 = dir_bytes(final(self).dev(), bs, directory_block);
                    &&& blk == first_free_from(old(self).dev(), bs, 0)->Some_0
                    &&& first_free_from(old(self).dev(), bs, 0) is Some
                    &&& e@ == (EntityView { name: name@, size: 0, start_block: blk,
                            flags: 1, vendor_data_size: 0 })
                    &&& e@.wf()
                    &&& dir_stream_wf(s2)
                    &&& parse_stream(s2, 0).recs == p1.recs.push(e@)
                    &&& valid_chain(final(self).dev(), bs, directory_block)
                    &&& !stored_chain(final(self).dev(), bs, directory_block)
                            .contains(blk)
                    &&& directory_block < bs.block_map_count as u64
                    &&& blk < bs.block_map_count as u64
                    &&& valid_chain(final(self).dev(), bs, blk)
                    &&& stored_chain(final(self).dev(), bs, blk) == seq![blk]
                    &&& block_bytes(final(self).dev(), bs, blk as int)
                            == zero_block_bytes(bs)
                    &&& block_zero_reserved(final(self).dev(), bs)
                }))
            }),
    {
        let ghost bs = self.bootsector;
        let ghost dev0 = self.dev();
        let ghost c = stored_chain(dev0, bs, directory_block);
        let ghost s1 = dir_bytes(dev0, bs, directory_block);
        let ghost p1 = parse_stream(s1, 0);
        let ghost nlen = name@.len() as int;
        proof {
            lemma_free_seq_props(dev0, bs, 0, 1);
            lemma_first_free_props(dev0, bs, 0);
            lemma_chain_distinct(dev0, bs, directory_block, c);
        }
        let block = match self.allocate_blocks(1) {
            None => {
                proof {
                    assert(creation_blocked(dev0, bs, directory_block, nlen));
                }
                return Err(NoctFSError::OutOfSpace);
            },
            Some(b) => b,
        };
        let ghost dev1 = self.dev();
        let entity = Entity::directory(name, 0, block);
        proof {
            let picked = free_seq(dev0, bs, 0, 1)->Some_0;
            assert(picked =~= seq![first_free_from(dev0, bs, 0)->Some_0]);
            assert(block == picked[0]);
            assert(block != 0) by {
                assert(is_free(dev0, bs, picked[0] as int));
            }
            assert(is_chain_of(dev1, bs, block, seq![block]));
            lemma_stored_chain(dev1, bs, block, seq![block]);
            assert forall|i: int| 0 <= i < c.len()
                implies !picked.contains(#[trigger] c[i]) by {
                crate::chainspec::lemma_valid_chain_members_not_free(dev0, bs,
                    directory_block);
                if picked.contains(c[i]) {
                    let w = choose|w: int| 0 <= w < 1 && picked[w] == c[i];
                    assert(is_free(dev0, bs, c[i] as int));
                }
            }
            lemma_chain_frame(dev0, dev1, bs, directory_block, c);
            lemma_stored_chain(dev1, bs, directory_block, c);
            lemma_chain_bytes_blocks(dev0, dev1, bs, c);
            assert(dir_bytes(dev1, bs, directory_block) == s1);
            assert(map_entry(dev1, bs, 0) == map_entry(dev0, bs, 0)) by {
                assert(!picked.contains(0u64)) by {
                    if picked.contains(0u64) {
                        assert(is_free(dev0, bs, 0));
                    }
                }
            }
            // One free block was spent: the free count drops by exactly one.
            assert forall|j: int| 0 <= j < bs.block_map_count as int && j != block
                implies map_entry(dev1, bs, j) == map_entry(dev0, bs, j) by {
                assert(!picked.contains(j as u64)) by {
                    if picked.contains(j as u64) {
                        let w = choose|w: int| 0 <= w < 1 && picked[w] == j as u64;
                    }
                }
            }
            assert(!is_free(dev1, bs, block as int)) by {
                assert(map_entry(dev1, bs, block as int)
                    == crate::END_OF_CHAIN);
            }
            crate::chainspec::lemma_num_free_one_less(dev0, dev1, bs, block as int, 0);
        }
        match self.write_entity(directory_block, &entity) {
            Err(e) => {
                proof {
                    assert(entity@.spec_fact_size() == nlen + 32);
                    lemma_blocked_shift(dev0, dev1, bs, directory_block, nlen);
                    assert(creation_blocked(dev0, bs, directory_block, nlen));
                }
                Err(e)
            },
            Ok(()) => {
                proof {
                    assert(entity@.spec_fact_size() == nlen + 32);
                    lemma_blocked_shift(dev0, dev1, bs, directory_block, nlen);
                    assert(!creation_blocked(dev0, bs, directory_block, nlen));
                    let devf = self.dev();
                    let c2 = stored_chain(devf, bs, directory_block);
                    assert(!c.contains(block)) by {
                        crate::chainspec::lemma_valid_chain_members_not_free(dev0, bs,
                            directory_block);
                        if c.contains(block) {
                            let w = choose|w: int| 0 <= w < c.len() && c[w] == block;
                            assert(is_free(dev0, bs, c[w] as int));
                        }
                    }
                    assert(!c2.contains(block)) by {
                        if c2.contains(block) {
                            let w = choose|w: int| 0 <= w < c2.len() && c2[w] == block;
                            if w < c.len() {
                                assert(c.contains(block));
                            } else {
                                assert(c2.skip(c.len() as int)[w - c.len()] == block);
                                assert(c2.skip(c.len() as int).contains(block));
                            }
                        }
                    }
                    assert(map_entry(devf, bs, block as int)
                        == map_entry(dev1, bs, block as int));
                    assert(block_bytes(devf, bs, block as int)
                        == block_bytes(dev1, bs, block as int));
                    assert(is_chain_of(devf, bs, block, seq![block]));
                    lemma_stored_chain(devf, bs, block, seq![block]);
                    assert(map_entry(devf, bs, 0) == map_entry(dev1, bs, 0)) by {
                        assert(!c.contains(0u64));
                        assert(!c2.contains(0u64)) by {
                            if c2.contains(0u64) {
                                assert(valid_chain(devf, bs, directory_block));
                                let w = choose|w: int| 0 <= w < c2.len()
                                    && c2[w] == 0u64;
                            }
                        }
                    }
                }
                Ok((entity, block))
            },
        }
    }

}

} // verus!
