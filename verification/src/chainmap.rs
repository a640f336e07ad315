//! The chainmap allocator: reading and writing successor entries, first-fit
//! scanning, chain allocation, traversal, freeing, and resizing.

use vstd::prelude::*;
use vstd::bytes::{u64_from_le_bytes, u64_to_le_bytes, lemma_auto_spec_u64_to_from_le_bytes};

use crate::bytes::{byte_at, read_seq, lemma_splice_byte_at};
use crate::chainspec::{
    map_entry, is_free, data_zone_offset, block_offset, block_bytes,
    is_chain_of, has_chain, stored_chain, first_free_from, num_free_from, free_seq,
    blocks_for_bytes,
    lemma_first_free_props, lemma_free_seq_props, lemma_free_seq_snoc,
    lemma_ascending_pairwise,
};
use crate::device::Device;
use crate::fs::NoctFS;
use crate::{BlockAddress, END_OF_CHAIN};

verus! {

/// All-zero block content.
pub open spec fn zero_block_bytes(bs: crate::bootsector::BootSector) -> Seq<u8> {
    Seq::new(bs.block_size as nat, |x: int| 0u8)
}

impl<D: Device> NoctFS<D> {
    /// Read the chainmap entry of block `nr`; `None` when `nr` is out of
    /// range.
    pub fn get_block(&self, nr: BlockAddress) -> (r: Option<BlockAddress>)
        requires
            self.wf(),
        ensures
            r == (if nr < self.bootsector.block_map_count as u64 {
                Some(map_entry(self.dev(), self.bootsector, nr as int))
            } else {
                None::<u64>
            }),
    {
        if nr >= self.bootsector.block_map_count as u64 {
            return None;
        }
        let off = self.bootsector.sector_size as u64 + nr * 8;
        let raw = self.device.read_at(off, 8);
        let v = u64_from_le_bytes(raw.as_slice());
        Some(v)
    }

    /// Write `value` into the chainmap entry of block `nr`; out-of-range
    /// writes are ignored. Nothing outside that one entry changes.
    pub fn write_block(&mut self, nr: BlockAddress, value: BlockAddress)
        requires
            old(self).wf(),
        ensures
            final(self).bootsector == old(self).bootsector,
            nr >= old(self).bootsector.block_map_count as u64
                ==> final(self).dev() == old(self).dev(),
            nr < old(self).bootsector.block_map_count as u64 ==> {
                &&& map_entry(final(self).dev(), old(self).bootsector, nr as int) == value
                &&& forall|j: int| 0 <= j < old(self).bmc() && j != nr
                        ==> map_entry(final(self).dev(), old(self).bootsector, j)
                            == map_entry(old(self).dev(), old(self).bootsector, j)
                &&& forall|b: int| 0 <= b < old(self).bmc()
                        ==> block_bytes(final(self).dev(), old(self).bootsector, b)
                            == block_bytes(old(self).dev(), old(self).bootsector, b)
                &&& forall|a: int| 0 <= a < old(self).bootsector.sector_size
                        ==> byte_at(final(self).dev(), a) == byte_at(old(self).dev(), a)
            },
    {
        let n = self.bootsector.block_map_count as u64;
        if nr >= n {
            return;
        }
        let off = self.bootsector.sector_size as u64 + nr * 8;
        let data = u64_to_le_bytes(value);
        self.device.write_at(off, data.as_slice());
        proof {
            let bs = self.bootsector;
            let pre = old(self).dev();
            let post = self.dev();
            lemma_splice_byte_at(pre, off as int, data@);
            lemma_auto_spec_u64_to_from_le_bytes();
            assert(read_seq(post, bs.sector_size + 8 * (nr as int), 8)
                =~= data@);
            assert forall|j: int| 0 <= j < bs.block_map_count as int && j != nr
                implies map_entry(post, bs, j) == map_entry(pre, bs, j) by {
                assert(8 * j + 8 <= 8 * (nr as int) || 8 * j >= 8 * (nr as int) + 8);
                assert(read_seq(post, bs.sector_size + 8 * j, 8)
                    =~= read_seq(pre, bs.sector_size + 8 * j, 8));
            }
            assert forall|b: int| 0 <= b < bs.block_map_count as int
                implies block_bytes(post, bs, b) == block_bytes(pre, bs, b) by {
                assert(block_offset(bs, b) >= data_zone_offset(bs)) by (nonlinear_arith)
                    requires b >= 0, bs.block_size > 0,
                ;
                assert(off + 8 <= data_zone_offset(bs));
                assert(block_bytes(post, bs, b) =~= block_bytes(pre, bs, b));
            }
        }
    }

    /// Zero the data of block `b`. Nothing else changes: not the chainmap,
    /// not the other blocks, not the boot sector.
    pub fn zero_block(&mut self, b: BlockAddress)
        requires
            old(self).wf(),
            b < old(self).bootsector.block_map_count as u64,
        ensures
            final(self).bootsector == old(self).bootsector,
            block_bytes(final(self).dev(), old(self).bootsector, b as int)
                == zero_block_bytes(old(self).bootsector),
            forall|b2: int| 0 <= b2 < old(self).bmc() && b2 != b
                ==> block_bytes(final(self).dev(), old(self).bootsector, b2)
                    == block_bytes(old(self).dev(), old(self).bootsector, b2),
            forall|j: int| 0 <= j < old(self).bmc()
                ==> map_entry(final(self).dev(), old(self).bootsector, j)
                    == map_entry(old(self).dev(), old(self).bootsector, j),
            forall|a: int| 0 <= a < old(self).bootsector.sector_size
                ==> byte_at(final(self).dev(), a) == byte_at(old(self).dev(), a),
    {
        let off = self.datazone_offset_with_block(b);
        let zeros = crate::bytes::zero_vec(self.bootsector.block_size as usize);
        proof {
            let bs = self.bootsector;
            let blen = bs.block_size as int;
            assert((b as int) * blen + blen <= (bs.block_map_count as int) * blen)
                by (nonlinear_arith)
                requires b as int + 1 <= bs.block_map_count as int, blen >= 0,
            ;
        }
        self.device.write_at(off, zeros.as_slice());
        proof {
            let bs = self.bootsector;
            let pre = old(self).dev();
            let post = self.dev();
            let blen = bs.block_size as int;
            lemma_splice_byte_at(pre, off as int, zeros@);
            assert(block_bytes(post, bs, b as int) =~= zero_block_bytes(bs));
            assert forall|b2: int| 0 <= b2 < bs.block_map_count as int && b2 != b
                implies block_bytes(post, bs, b2) == block_bytes(pre, bs, b2) by {
                assert(b2 * blen + blen <= (b as int) * blen
                    || b2 * blen >= (b as int) * blen + blen) by (nonlinear_arith)
                    requires blen >= 0, b2 + 1 <= b as int || b2 >= b as int + 1,
                ;
                assert(block_bytes(post, bs, b2) =~= block_bytes(pre, bs, b2));
            }
            assert((b as int) * blen >= 0) by (nonlinear_arith)
                requires b as int >= 0, blen >= 0,
            ;
            assert forall|j: int| 0 <= j < bs.block_map_count as int
                implies map_entry(post, bs, j) == map_entry(pre, bs, j) by {
                assert(bs.sector_size + 8 * j + 8 <= data_zone_offset(bs));
                assert(read_seq(post, bs.sector_size + 8 * j, 8)
                    =~= read_seq(pre, bs.sector_size + 8 * j, 8));
            }
        }
    }

    /// Link the given (ascending, in-range) blocks into a chain ending in
    /// the terminator. Touches only those chainmap entries.
    fn link_blocks(&mut self, picked: &Vec<BlockAddress>)
        requires
            old(self).wf(),
            picked@.len() > 0,
            forall|m: int| 0 <= m < picked@.len()
                ==> #[trigger] picked@[m] < old(self).bootsector.block_map_count as u64,
            forall|m: int| 0 <= m < picked@.len() - 1
                ==> #[trigger] picked@[m] < picked@[m + 1],
        ensures
            final(self).bootsector == old(self).bootsector,
            forall|m: int| 0 <= m < picked@.len()
                ==> map_entry(final(self).dev(), old(self).bootsector,
                        #[trigger] picked@[m] as int)
                    == if m + 1 < picked@.len() { picked@[m + 1] } else { END_OF_CHAIN },
            forall|j: int| 0 <= j < old(self).bmc() && !picked@.contains(j as u64)
                ==> map_entry(final(self).dev(), old(self).bootsector, j)
                    == map_entry(old(self).dev(), old(self).bootsector, j),
            forall|b: int| 0 <= b < old(self).bmc()
                ==> block_bytes(final(self).dev(), old(self).bootsector, b)
                    == block_bytes(old(self).dev(), old(self).bootsector, b),
            forall|a: int| 0 <= a < old(self).bootsector.sector_size
                ==> byte_at(final(self).dev(), a) == byte_at(old(self).dev(), a),
    {
        let ghost bs = self.bootsector;
        let ghost dev0 = self.dev();
        let ghost pseq = picked@;
        let count = picked.len();
        let mut idx: usize = 0;
        while idx < count
            invariant
                self.wf(),
                self.bootsector == bs,
                idx <= count,
                count == pseq.len(),
                picked@ == pseq,
                forall|m: int| 0 <= m < pseq.len()
                    ==> #[trigger] pseq[m] < bs.block_map_count as u64,
                forall|m: int| 0 <= m < pseq.len() - 1 ==> #[trigger] pseq[m] < pseq[m + 1],
                forall|m: int| 0 <= m < idx
                    ==> map_entry(self.dev(), bs, #[trigger] pseq[m] as int)
                        == if m + 1 < pseq.len() { pseq[m + 1] } else { END_OF_CHAIN },
                forall|j: int| 0 <= j < bs.block_map_count as int && !pseq.contains(j as u64)
                    ==> map_entry(self.dev(), bs, j) == map_entry(dev0, bs, j),
                forall|b: int| 0 <= b < bs.block_map_count as int
                    ==> block_bytes(self.dev(), bs, b) == block_bytes(dev0, bs, b),
                forall|a: int| 0 <= a < bs.sector_size
                    ==> byte_at(self.dev(), a) == byte_at(dev0, a),
            decreases count - idx,
        {
            let target: u64 = if idx + 1 < count {
                picked[idx + 1]
            } else {
                END_OF_CHAIN
            };
            let blk = picked[idx];
            self.write_block(blk, target);
            proof {
                assert(pseq.contains(pseq[idx as int]));
                assert forall|m: int| 0 <= m < idx + 1
                    implies map_entry(self.dev(), bs, #[trigger] pseq[m] as int)
                        == if m + 1 < pseq.len() { pseq[m + 1] } else { END_OF_CHAIN } by {
                    if m < idx {
                        lemma_ascending_pairwise(pseq, m, idx as int);
                    }
                }
            }
            idx = idx + 1;
        }
    }

    /// Zero the data of the given (ascending, in-range) blocks. Touches only
    /// those blocks' data.
    fn zero_blocks(&mut self, picked: &Vec<BlockAddress>)
        requires
            old(self).wf(),
            forall|m: int| 0 <= m < picked@.len()
                ==> #[trigger] picked@[m] < old(self).bootsector.block_map_count as u64,
            forall|m: int| 0 <= m < picked@.len() - 1
                ==> #[trigger] picked@[m] < picked@[m + 1],
        ensures
            final(self).bootsector == old(self).bootsector,
            forall|m: int| 0 <= m < picked@.len()
                ==> block_bytes(final(self).dev(), old(self).bootsector,
                        #[trigger] picked@[m] as int)
                    == zero_block_bytes(old(self).bootsector),
            forall|b: int| 0 <= b < old(self).bmc() && !picked@.contains(b as u64)
                ==> block_bytes(final(self).dev(), old(self).bootsector, b)
                    == block_bytes(old(self).dev(), old(self).bootsector, b),
            forall|j: int| 0 <= j < old(self).bmc()
                ==> map_entry(final(self).dev(), old(self).bootsector, j)
                    == map_entry(old(self).dev(), old(self).bootsector, j),
            forall|a: int| 0 <= a < old(self).bootsector.sector_size
                ==> byte_at(final(self).dev(), a) == byte_at(old(self).dev(), a),
    {
        let ghost bs = self.bootsector;
        let ghost dev0 = self.dev();
        let ghost pseq = picked@;
        let count = picked.len();
        let mut z: usize = 0;
        while z < count
            invariant
                self.wf(),
                self.bootsector == bs,
                z <= count,
                count == pseq.len(),
                picked@ == pseq,
                forall|m: int| 0 <= m < pseq.len()
                    ==> #[trigger] pseq[m] < bs.block_map_count as u64,
                forall|m: int| 0 <= m < pseq.len() - 1 ==> #[trigger] pseq[m] < pseq[m + 1],
                forall|m: int| 0 <= m < z
                    ==> block_bytes(self.dev(), bs, #[trigger] pseq[m] as int)
                        == zero_block_bytes(bs),
                forall|b: int| 0 <= b < bs.block_map_count as int && !pseq.contains(b as u64)
                    ==> block_bytes(self.dev(), bs, b) == block_bytes(dev0, bs, b),
                forall|j: int| 0 <= j < bs.block_map_count as int
                    ==> map_entry(self.dev(), bs, j) == map_entry(dev0, bs, j),
                forall|a: int| 0 <= a < bs.sector_size
                    ==> byte_at(self.dev(), a) == byte_at(dev0, a),
            decreases count - z,
        {
            let blk = picked[z];
            self.zero_block(blk);
            proof {
                assert(pseq.contains(pseq[z as int]));
                assert forall|m: int| 0 <= m < z + 1
                    implies block_bytes(self.dev(), bs, #[trigger] pseq[m] as int)
                        == zero_block_bytes(bs) by {
                    if m < z {
                        lemma_ascending_pairwise(pseq, m, z as int);
                    }
                }
            }
            z = z + 1;
        }
    }

    /// Allocate a fresh chain of exactly `count` blocks and return its head.
    /// The blocks are the `count` lowest-indexed free blocks, linked in
    /// ascending order and zero-filled. Returns `None`, changing nothing,
    /// when `count` is zero or fewer than `count` blocks are free.
    pub fn allocate_blocks(&mut self, count: u32) -> (r: Option<BlockAddress>)
        requires
            old(self).wf(),
        ensures
            final(self).bootsector == old(self).bootsector,
            r is None <==> (count == 0
                || num_free_from(old(self).dev(), old(self).bootsector, 0) < count as nat),
            r is None ==> final(self).dev() == old(self).dev(),
            r is Some ==> ({
                let picked = free_seq(old(self).dev(), old(self).bootsector, 0,
                    count as nat)->Some_0;
                &&& free_seq(old(self).dev(), old(self).bootsector, 0, count as nat) is Some
                &&& r == Some(picked[0])
                &&& picked.len() == count
                &&& is_chain_of(final(self).dev(), old(self).bootsector, picked[0], picked)
                &&& forall|k: int| 0 <= k < picked.len()
                        ==> map_entry(final(self).dev(), old(self).bootsector,
                            #[trigger] picked[k] as int)
                            == if k + 1 < picked.len() { picked[k + 1] } else { END_OF_CHAIN }
                &&& forall|k: int| 0 <= k < picked.len()
                        ==> is_free(old(self).dev(), old(self).bootsector,
                            #[trigger] picked[k] as int)
                &&& forall|j: int| 0 <= j < old(self).bmc() && !picked.contains(j as u64)
                        ==> map_entry(final(self).dev(), old(self).bootsector, j)
                            == map_entry(old(self).dev(), old(self).bootsector, j)
                &&& forall|b: int| 0 <= b < old(self).bmc() && !picked.contains(b as u64)
                        ==> block_bytes(final(self).dev(), old(self).bootsector, b)
                            == block_bytes(old(self).dev(), old(self).bootsector, b)
                &&& forall|k: int| 0 <= k < picked.len()
                        ==> block_bytes(final(self).dev(), old(self).bootsector,
                            #[trigger] picked[k] as int)
                            == zero_block_bytes(old(self).bootsector)
                &&& forall|a: int| 0 <= a < old(self).bootsector.sector_size
                        ==> byte_at(final(self).dev(), a) == byte_at(old(self).dev(), a)
            }),
    {
        if count == 0 {
            return None;
        }
        let ghost dev0 = self.dev();
        let ghost bs = self.bootsector;

        // First pass: pick the first `count` free blocks; nothing is written,
        // so a failed request leaves the filesystem untouched.
        let mut picked: Vec<BlockAddress> = Vec::new();
        let mut scan: u64 = 0;
        let mut k: u32 = 0;
        while k < count
            invariant
                self.wf(),
                self.bootsector == bs,
                self.dev() == dev0,
                k == picked@.len(),
                k <= count,
                count > 0,
                free_seq(dev0, bs, 0, k as nat) == Some(picked@),
                scan as int == if k == 0 { 0int } else { picked@[k as int - 1] + 1 },
                scan <= bs.block_map_count as u64,
            decreases count - k,
        {
            let ghost prev = picked@;
            let found = self.find_free_from(scan);
            proof {
                lemma_free_seq_snoc(dev0, bs, 0, k as nat, prev);
            }
            match found {
                None => {
                    proof {
                        lemma_free_seq_props(dev0, bs, 0, (k + 1) as nat);
                        lemma_free_seq_props(dev0, bs, 0, count as nat);
                    }
                    return None;
                },
                Some(b) => {
                    proof {
                        lemma_first_free_props(dev0, bs, scan as int);
                    }
                    picked.push(b);
                    scan = b + 1;
                    k = k + 1;
                },
            }
        }
        proof {
            lemma_free_seq_props(dev0, bs, 0, count as nat);
        }
        let ghost pseq = picked@;

        // Second pass: link the picked blocks; third pass: hand them out
        // zero-filled.
        self.link_blocks(&picked);
        self.zero_blocks(&picked);

        proof {
            assert(is_chain_of(self.dev(), bs, pseq[0], pseq)) by {
                assert(pseq.len() > 0);
                assert(pseq[0] < bs.block_map_count as u64);
                assert(map_entry(self.dev(), bs, pseq[pseq.len() - 1] as int)
                    == END_OF_CHAIN);
            }
        }
        Some(picked[0])
    }

    /// Free the chain starting at `start_block`: every block of the walk has
    /// its entry set to zero. Freeing block 0 is refused (reserved).
    pub fn free_blocks(&mut self, start_block: BlockAddress)
        requires
            old(self).wf(),
            start_block == 0
                || has_chain(old(self).dev(), old(self).bootsector, start_block),
        ensures
            final(self).bootsector == old(self).bootsector,
            start_block == 0 ==> final(self).dev() == old(self).dev(),
            start_block != 0 ==> ({
                let c = stored_chain(old(self).dev(), old(self).bootsector, start_block);
                &&& forall|j: int| 0 <= j < old(self).bmc()
                        ==> map_entry(final(self).dev(), old(self).bootsector, j)
                            == if c.contains(j as u64) {
                                0u64
                            } else {
                                map_entry(old(self).dev(), old(self).bootsector, j)
                            }
                &&& forall|b: int| 0 <= b < old(self).bmc()
                        ==> block_bytes(final(self).dev(), old(self).bootsector, b)
                            == block_bytes(old(self).dev(), old(self).bootsector, b)
                &&& forall|a: int| 0 <= a < old(self).bootsector.sector_size
                        ==> byte_at(final(self).dev(), a) == byte_at(old(self).dev(), a)
            }),
    {
        if start_block == 0 {
            return;
        }
        let ghost bs = self.bootsector;
        let ghost dev0 = self.dev();
        let ghost c = stored_chain(dev0, bs, start_block);
        proof {
            assert(is_chain_of(dev0, bs, start_block, c));
            crate::chainspec::lemma_chain_distinct(dev0, bs, start_block, c);
        }
        let n = self.bootsector.block_map_count as u64;
        let mut current = start_block;
        let ghost mut k: int = 0;
        while current < n
            invariant
                self.wf(),
                self.bootsector == bs,
                n == bs.block_map_count as u64,
                is_chain_of(dev0, bs, start_block, c),
                forall|i: int, j: int| 0 <= i < c.len() && 0 <= j < c.len() && i != j
                    ==> c[i] != c[j],
                0 <= k <= c.len(),
                k < c.len() ==> current == c[k],
                k == c.len() ==> current >= n,
                forall|j: int| 0 <= j < bs.block_map_count as int
                    ==> map_entry(self.dev(), bs, j)
                        == if c.take(k).contains(j as u64) {
                            0u64
                        } else {
                            map_entry(dev0, bs, j)
                        },
                forall|b: int| 0 <= b < bs.block_map_count as int
                    ==> block_bytes(self.dev(), bs, b) == block_bytes(dev0, bs, b),
                forall|a: int| 0 <= a < bs.sector_size
                    ==> byte_at(self.dev(), a) == byte_at(dev0, a),
            decreases c.len() - k,
        {
            proof {
                assert(!c.take(k).contains(c[k])) by {
                    if c.take(k).contains(c[k]) {
                        let w = choose|w: int| 0 <= w < k && c.take(k)[w] == c[k];
                        assert(c[w] == c[k]);
                    }
                }
                assert(map_entry(self.dev(), bs, current as int)
                    == map_entry(dev0, bs, c[k] as int));
            }
            let next = self.get_block(current).unwrap();
            self.write_block(current, 0);
            proof {
                let knew = k + 1;
                assert forall|j: int| 0 <= j < bs.block_map_count as int
                    implies map_entry(self.dev(), bs, j)
                        == if c.take(knew).contains(j as u64) {
                            0u64
                        } else {
                            map_entry(dev0, bs, j)
                        } by {
                    if j == c[k] {
                        assert(c.take(knew)[k] == c[k]);
                        assert(c.take(knew).contains(j as u64));
                    } else {
                        assert(c.take(knew).contains(j as u64)
                            == c.take(k).contains(j as u64)) by {
                            if c.take(knew).contains(j as u64) {
                                let w = choose|w: int| 0 <= w < knew
                                    && c.take(knew)[w] == j as u64;
                                assert(w != k);
                                assert(c.take(k)[w] == j as u64);
                            }
                            if c.take(k).contains(j as u64) {
                                let w = choose|w: int| 0 <= w < k
                                    && c.take(k)[w] == j as u64;
                                assert(c.take(knew)[w] == j as u64);
                            }
                        }
                    }
                }
                k = knew;
            }
            current = next;
        }
        proof {
            assert(k == c.len());
            assert(c.take(k) =~= c);
        }
    }

    /// Grow the chain at `start_block` by `count` fresh blocks, linked after
    /// its last block. On failure nothing changes.
    pub fn extend_chain_by(&mut self, start_block: BlockAddress, count: u32)
        -> (r: Result<(), crate::NoctFSError>)
        requires
            old(self).wf(),
            count > 0,
            start_block < old(self).bootsector.block_map_count as u64,
            crate::chainspec::valid_chain(old(self).dev(), old(self).bootsector, start_block),
            crate::chainspec::block_zero_reserved(old(self).dev(), old(self).bootsector),
        ensures
            final(self).bootsector == old(self).bootsector,
            r is Err <==> num_free_from(old(self).dev(), old(self).bootsector, 0)
                < count as nat,
            r is Err ==> final(self).dev() == old(self).dev()
                && r == Err::<(), crate::NoctFSError>(crate::NoctFSError::OutOfSpace),
            r is Ok ==> ({
                let c = stored_chain(old(self).dev(), old(self).bootsector, start_block);
                let picked = free_seq(old(self).dev(), old(self).bootsector, 0,
                    count as nat)->Some_0;
                &&& free_seq(old(self).dev(), old(self).bootsector, 0, count as nat) is Some
                &&& is_chain_of(final(self).dev(), old(self).bootsector, start_block,
                        c + picked)
                &&& crate::chainspec::valid_chain(final(self).dev(), old(self).bootsector,
                        start_block)
                &&& stored_chain(final(self).dev(), old(self).bootsector, start_block)
                        == c + picked
                &&& forall|j: int| 0 <= j < old(self).bmc() && !picked.contains(j as u64)
                        && j != c[c.len() - 1]
                        ==> map_entry(final(self).dev(), old(self).bootsector, j)
                            == map_entry(old(self).dev(), old(self).bootsector, j)
                &&& forall|b: int| 0 <= b < old(self).bmc() && !picked.contains(b as u64)
                        ==> block_bytes(final(self).dev(), old(self).bootsector, b)
                            == block_bytes(old(self).dev(), old(self).bootsector, b)
                &&& forall|m: int| 0 <= m < picked.len()
                        ==> block_bytes(final(self).dev(), old(self).bootsector,
                            #[trigger] picked[m] as int)
                            == zero_block_bytes(old(self).bootsector)
                &&& forall|a: int| 0 <= a < old(self).bootsector.sector_size
                        ==> byte_at(final(self).dev(), a) == byte_at(old(self).dev(), a)
            }),
    {
        let ghost bs = self.bootsector;
        let ghost dev0 = self.dev();
        let ghost c = stored_chain(dev0, bs, start_block);
        proof {
            assert(is_chain_of(dev0, bs, start_block, c));
            crate::chainspec::lemma_chain_distinct(dev0, bs, start_block, c);
            crate::chainspec::lemma_valid_chain_members_not_free(dev0, bs, start_block);
        }
        let chain = self.get_chain(start_block);
        let last = chain[chain.len() - 1];
        let allocated = self.allocate_blocks(count);
        match allocated {
            None => Err(crate::NoctFSError::OutOfSpace),
            Some(head) => {
                let ghost picked = free_seq(dev0, bs, 0, count as nat)->Some_0;
                proof {
                    lemma_free_seq_props(dev0, bs, 0, count as nat);
                    // No chain member is free, so the fresh blocks are new.
                    assert forall|i: int| 0 <= i < c.len()
                        implies !picked.contains(#[trigger] c[i]) by {
                        if picked.contains(c[i]) {
                            let w = choose|w: int| 0 <= w < picked.len()
                                && picked[w] == c[i];
                            assert(is_free(dev0, bs, picked[w] as int));
                        }
                    }
                    assert(!picked.contains(c[c.len() - 1]));
                    assert(c.contains(c[c.len() - 1]));
                }
                self.write_block(last, head);
                proof {
                    let devf = self.dev();
                    let joined = c + picked;
                    assert forall|i: int| 0 <= i < joined.len()
                        implies #[trigger] joined[i] < bs.block_map_count as u64 by {}
                    assert forall|i: int| 0 <= i < joined.len() - 1
                        implies map_entry(devf, bs, #[trigger] joined[i] as int)
                            == joined[i + 1] by {
                        if i < c.len() - 1 {
                            assert(joined[i] == c[i] && joined[i + 1] == c[i + 1]);
                            assert(c[i] != c[c.len() - 1]);
                            assert(!picked.contains(c[i]));
                        } else if i == c.len() - 1 {
                            assert(joined[i] == c[i]);
                            assert(joined[i + 1] == picked[0]);
                        } else {
                            let m = i - c.len();
                            assert(joined[i] == picked[m]);
                            assert(joined[i + 1] == picked[m + 1]);
                            assert(picked[m] != c[c.len() - 1]);
                            assert(map_entry(devf, bs, picked[m] as int)
                                == picked[m + 1]);
                        }
                    }
                    assert(joined[joined.len() - 1] == picked[picked.len() - 1]);
                    assert(picked[picked.len() - 1] != c[c.len() - 1]);
                    assert(map_entry(devf, bs, joined[joined.len() - 1] as int)
                        >= bs.block_map_count as u64);
                    assert(is_chain_of(devf, bs, start_block, joined));
                    crate::chainspec::lemma_stored_chain(devf, bs, start_block, joined);
                    // The grown chain avoids block 0: old members did, and the
                    // fresh ones were free while block 0 is reserved.
                    assert forall|i: int| 0 <= i < joined.len()
                        implies #[trigger] joined[i] != 0 by {
                        if i >= c.len() {
                            assert(is_free(dev0, bs, picked[i - c.len()] as int));
                        }
                    }
                }
                Ok(())
            },
        }
    }

    /// Remove the last `count` blocks of the chain at `start_block`: the new
    /// last block gets the terminator and the removed blocks are freed.
    /// Requests with `count == 0` or `count` beyond the chain length are
    /// ignored; `count` equal to the length frees the whole chain.
    pub fn shrink_chain_by(&mut self, start_block: BlockAddress, count: usize)
        requires
            old(self).wf(),
            crate::chainspec::valid_chain(old(self).dev(), old(self).bootsector, start_block),
        ensures
            final(self).bootsector == old(self).bootsector,
            ({
                let c = stored_chain(old(self).dev(), old(self).bootsector, start_block);
                &&& (count == 0 || count > c.len()
                        ==> final(self).dev() == old(self).dev())
                &&& (0 < count <= c.len() ==> {
                    let keep = c.len() - count;
                    &&& forall|j: int| 0 <= j < old(self).bmc()
                            && !c.skip(keep as int).contains(j as u64)
                            && !(keep > 0 && j == c[keep - 1])
                            ==> map_entry(final(self).dev(), old(self).bootsector, j)
                                == map_entry(old(self).dev(), old(self).bootsector, j)
                    &&& forall|m: int| keep <= m < c.len()
                            ==> map_entry(final(self).dev(), old(self).bootsector,
                                #[trigger] c[m] as int) == 0
                    &&& (keep > 0 ==> map_entry(final(self).dev(), old(self).bootsector,
                            c[keep - 1] as int) == END_OF_CHAIN)
                    &&& (keep > 0 ==> is_chain_of(final(self).dev(), old(self).bootsector,
                            start_block, c.take(keep as int)))
                    &&& (keep > 0 ==> crate::chainspec::valid_chain(final(self).dev(),
                            old(self).bootsector, start_block))
                    &&& (keep > 0 ==> stored_chain(final(self).dev(), old(self).bootsector,
                            start_block) == c.take(keep as int))
                    &&& forall|b: int| 0 <= b < old(self).bmc()
                            ==> block_bytes(final(self).dev(), old(self).bootsector, b)
                                == block_bytes(old(self).dev(), old(self).bootsector, b)
                    &&& forall|a: int| 0 <= a < old(self).bootsector.sector_size
                            ==> byte_at(final(self).dev(), a)
                                == byte_at(old(self).dev(), a)
                })
            }),
    {
        let ghost bs = self.bootsector;
        let ghost dev0 = self.dev();
        let ghost c = stored_chain(dev0, bs, start_block);
        proof {
            assert(is_chain_of(dev0, bs, start_block, c));
            crate::chainspec::lemma_chain_distinct(dev0, bs, start_block, c);
        }
        let chain = self.get_chain(start_block);
        if count == 0 {
            return;
        }
        if count > chain.len() {
            return;
        }
        let keep = chain.len() - count;
        if keep > 0 {
            self.write_block(chain[keep - 1], END_OF_CHAIN);
            proof {
                assert(!c.skip(keep as int).contains(c[keep - 1])) by {
                    if c.skip(keep as int).contains(c[keep - 1]) {
                        let w = choose|w: int| 0 <= w < count
                            && c.skip(keep as int)[w] == c[keep - 1];
                        assert(c[keep + w] == c[keep - 1]);
                    }
                }
            }
        }
        let ghost dev1 = self.dev();
        let mut m: usize = keep;
        while m < chain.len()
            invariant
                self.wf(),
                self.bootsector == bs,
                chain@ == c,
                keep <= m <= c.len(),
                keep == c.len() - count,
                0 < count <= c.len(),
                forall|i: int| 0 <= i < c.len()
                    ==> #[trigger] c[i] < bs.block_map_count as u64,
                forall|i: int, j: int| 0 <= i < c.len() && 0 <= j < c.len() && i != j
                    ==> c[i] != c[j],
                forall|w: int| keep <= w < m
                    ==> map_entry(self.dev(), bs, #[trigger] c[w] as int) == 0,
                forall|j: int| 0 <= j < bs.block_map_count as int
                        && !c.subrange(keep as int, m as int).contains(j as u64)
                    ==> map_entry(self.dev(), bs, j) == map_entry(dev1, bs, j),
                forall|b: int| 0 <= b < bs.block_map_count as int
                    ==> block_bytes(self.dev(), bs, b) == block_bytes(dev1, bs, b),
                forall|a: int| 0 <= a < bs.sector_size
                    ==> byte_at(self.dev(), a) == byte_at(dev1, a),
            decreases c.len() - m,
        {
            self.write_block(chain[m], 0);
            proof {
                assert(c.subrange(keep as int, m + 1).contains(c[m as int])) by {
                    assert(c.subrange(keep as int, m + 1)[m - keep] == c[m as int]);
                }
                assert forall|j: int| 0 <= j < bs.block_map_count as int
                        && !c.subrange(keep as int, m + 1).contains(j as u64)
                    implies map_entry(self.dev(), bs, j) == map_entry(dev1, bs, j) by {
                    assert(!c.subrange(keep as int, m as int).contains(j as u64)) by {
                        if c.subrange(keep as int, m as int).contains(j as u64) {
                            let w = choose|w: int| 0 <= w < m - keep
                                && c.subrange(keep as int, m as int)[w] == j as u64;
                            assert(c.subrange(keep as int, m + 1)[w] == j as u64);
                        }
                    }
                    assert(j != c[m as int]);
                }
                assert forall|w: int| keep <= w < m + 1
                    implies map_entry(self.dev(), bs, #[trigger] c[w] as int) == 0 by {
                    if w < m {
                        assert(c[w] != c[m as int]);
                    }
                }
            }
            m = m + 1;
        }
        proof {
            assert(c.subrange(keep as int, c.len() as int) =~= c.skip(keep as int));
            // Carry the frame back to the state before the terminator write.
            assert forall|j: int| 0 <= j < bs.block_map_count as int
                    && !c.skip(keep as int).contains(j as u64)
                    && !(keep > 0 && j == c[keep - 1])
                implies map_entry(self.dev(), bs, j) == map_entry(dev0, bs, j) by {}
            assert forall|w: int| keep <= w < c.len()
                implies map_entry(self.dev(), bs, #[trigger] c[w] as int) == 0 by {}
            if keep > 0 {
                assert(map_entry(self.dev(), bs, c[keep - 1] as int) == END_OF_CHAIN) by {
                    assert(!c.skip(keep as int).contains(c[keep - 1])) by {
                        if c.skip(keep as int).contains(c[keep - 1]) {
                            let w = choose|w: int| 0 <= w < count
                                && c.skip(keep as int)[w] == c[keep - 1];
                            assert(c[keep + w] == c[keep - 1]);
                        }
                    }
                }
                let trimmed = c.take(keep as int);
                assert forall|i: int| 0 <= i < trimmed.len() - 1
                    implies map_entry(self.dev(), bs, #[trigger] trimmed[i] as int)
                        == trimmed[i + 1] by {
                    assert(trimmed[i] == c[i]);
                    assert(!c.skip(keep as int).contains(c[i]));
                    assert(c[i] != c[keep - 1]);
                }
                assert(is_chain_of(self.dev(), bs, start_block, trimmed));
                crate::chainspec::lemma_stored_chain(self.dev(), bs, start_block, trimmed);
            }
        }
    }

    /// Bring the chain at `start_block` to exactly `count` blocks, growing
    /// or trimming as needed; a request for the current length is a no-op,
    /// and a request for zero frees every block of the chain.
    #[verifier::rlimit(100)]
    pub fn set_chain_size(&mut self, start_block: BlockAddress, count: usize)
        -> (r: Result<(), crate::NoctFSError>)
        requires
            old(self).wf(),
            start_block < old(self).bootsector.block_map_count as u64,
            crate::chainspec::valid_chain(old(self).dev(), old(self).bootsector, start_block),
            crate::chainspec::block_zero_reserved(old(self).dev(), old(self).bootsector),
            count <= u32::MAX,
        ensures
            final(self).bootsector == old(self).bootsector,
            ({
                let c = stored_chain(old(self).dev(), old(self).bootsector, start_block);
                let c2 = stored_chain(final(self).dev(), old(self).bootsector, start_block);
                &&& (r is Err <==> (count > c.len()
                        && num_free_from(old(self).dev(), old(self).bootsector, 0)
                            < (count - c.len()) as nat))
                &&& (r is Err ==> final(self).dev() == old(self).dev()
                        && r == Err::<(), crate::NoctFSError>(crate::NoctFSError::OutOfSpace))
                &&& (r is Ok && count == c.len() ==> final(self).dev() == old(self).dev())
                &&& (r is Ok && count > 0 ==> {
                    &&& crate::chainspec::valid_chain(final(self).dev(),
                            old(self).bootsector, start_block)
                    &&& c2.len() == count
                    &&& forall|i: int| 0 <= i < c.len() && i < count ==> c2[i] == c[i]
                    &&& forall|m: int| c.len() <= m < c2.len()
                            ==> is_free(old(self).dev(), old(self).bootsector,
                                #[trigger] c2[m] as int)
                    &&& forall|j: int| 0 <= j < old(self).bmc() && !c.contains(j as u64)
                            && !c2.contains(j as u64)
                            ==> map_entry(final(self).dev(), old(self).bootsector, j)
                                == map_entry(old(self).dev(), old(self).bootsector, j)
                    &&& (count <= c.len() ==> forall|b: int| 0 <= b < old(self).bmc()
                            ==> block_bytes(final(self).dev(), old(self).bootsector, b)
                                == block_bytes(old(self).dev(), old(self).bootsector, b))
                    &&& (count > c.len() ==> forall|b: int| 0 <= b < old(self).bmc()
                            && !c2.skip(c.len() as int).contains(b as u64)
                            ==> block_bytes(final(self).dev(), old(self).bootsector, b)
                                == block_bytes(old(self).dev(), old(self).bootsector, b))
                    &&& forall|m: int| c.len() <= m < c2.len()
                            ==> block_bytes(final(self).dev(), old(self).bootsector,
                                #[trigger] c2[m] as int)
                                == zero_block_bytes(old(self).bootsector)
                })
                &&& (r is Ok && count == 0 ==> {
                    &&& forall|j: int| 0 <= j < old(self).bmc()
                            ==> map_entry(final(self).dev(), old(self).bootsector, j)
                                == if c.contains(j as u64) {
                                    0u64
                                } else {
                                    map_entry(old(self).dev(), old(self).bootsector, j)
                                }
                    &&& forall|b: int| 0 <= b < old(self).bmc()
                            ==> block_bytes(final(self).dev(), old(self).bootsector, b)
                                == block_bytes(old(self).dev(), old(self).bootsector, b)
                })
                &&& forall|a: int| 0 <= a < old(self).bootsector.sector_size
                        ==> byte_at(final(self).dev(), a) == byte_at(old(self).dev(), a)
            }),
    {
        let ghost c = stored_chain(old(self).dev(), old(self).bootsector, start_block);
        let chain_length = self.get_chain(start_block).len();
        if chain_length == count {
            Ok(())
        } else if chain_length > count {
            self.resize_down(start_block, count);
            Ok(())
        } else {
            self.resize_up(start_block, count)
        }
    }

    /// Trim the chain at `start_block` down to `count` blocks.
    fn resize_down(&mut self, start_block: BlockAddress, count: usize)
        requires
            old(self).wf(),
            start_block < old(self).bootsector.block_map_count as u64,
            crate::chainspec::valid_chain(old(self).dev(), old(self).bootsector, start_block),
            count < stored_chain(old(self).dev(), old(self).bootsector, start_block).len(),
        ensures
            final(self).bootsector == old(self).bootsector,
            ({
                let c = stored_chain(old(self).dev(), old(self).bootsector, start_block);
                let c2 = stored_chain(final(self).dev(), old(self).bootsector, start_block);
                &&& (count > 0 ==> {
                    &&& crate::chainspec::valid_chain(final(self).dev(),
                            old(self).bootsector, start_block)
                    &&& c2.len() == count
                    &&& forall|i: int| 0 <= i < c.len() && i < count ==> c2[i] == c[i]
                    &&& forall|j: int| 0 <= j < old(self).bmc() && !c.contains(j as u64)
                            && !c2.contains(j as u64)
                            ==> map_entry(final(self).dev(), old(self).bootsector, j)
                                == map_entry(old(self).dev(), old(self).bootsector, j)
                })
                &&& (count == 0 ==> forall|j: int| 0 <= j < old(self).bmc()
                        ==> map_entry(final(self).dev(), old(self).bootsector, j)
                            == if c.contains(j as u64) {
                                0u64
                            } else {
                                map_entry(old(self).dev(), old(self).bootsector, j)
                            })
                &&& forall|b: int| 0 <= b < old(self).bmc()
                        ==> block_bytes(final(self).dev(), old(self).bootsector, b)
                            == block_bytes(old(self).dev(), old(self).bootsector, b)
                &&& forall|a: int| 0 <= a < old(self).bootsector.sector_size
                        ==> byte_at(final(self).dev(), a) == byte_at(old(self).dev(), a)
            }),
    {
        let ghost bs = self.bootsector;
        let ghost dev0 = self.dev();
        let ghost c = stored_chain(dev0, bs, start_block);
        let chain_length = self.get_chain(start_block).len();
        self.shrink_chain_by(start_block, chain_length - count);
        proof {
            if count > 0 {
                    let c2 = stored_chain(self.dev(), bs, start_block);
                    assert(c2 == c.take(count as int));
                    assert forall|j: int| 0 <= j < bs.block_map_count as int
                            && !c.contains(j as u64) && !c2.contains(j as u64)
                        implies map_entry(self.dev(), bs, j) == map_entry(dev0, bs, j) by {
                        assert(!c.skip(count as int).contains(j as u64)) by {
                            if c.skip(count as int).contains(j as u64) {
                                let w = choose|w: int| 0 <= w < c.len() - count
                                    && c.skip(count as int)[w] == j as u64;
                                assert(c[count + w] == j as u64);
                                assert(c.contains(j as u64));
                            }
                        }
                        assert(j != c[count - 1]) by {
                            if j == c[count - 1] {
                                assert(c.contains(j as u64));
                            }
                        }
                    }
            } else {
                    assert forall|j: int| 0 <= j < bs.block_map_count as int
                        implies map_entry(self.dev(), bs, j)
                            == if c.contains(j as u64) {
                                0u64
                            } else {
                                map_entry(dev0, bs, j)
                            } by {
                        assert(c.skip(0) =~= c);
                        if c.contains(j as u64) {
                            let w = choose|w: int| 0 <= w < c.len() && c[w] == j as u64;
                            assert(map_entry(self.dev(), bs, c[w] as int) == 0);
                        }
                    }
            }
        }
    }

    /// Grow the chain at `start_block` up to `count` blocks.
    fn resize_up(&mut self, start_block: BlockAddress, count: usize)
        -> (r: Result<(), crate::NoctFSError>)
        requires
            old(self).wf(),
            start_block < old(self).bootsector.block_map_count as u64,
            crate::chainspec::valid_chain(old(self).dev(), old(self).bootsector, start_block),
            crate::chainspec::block_zero_reserved(old(self).dev(), old(self).bootsector),
            count > stored_chain(old(self).dev(), old(self).bootsector, start_block).len(),
            count <= u32::MAX,
        ensures
            final(self).bootsector == old(self).bootsector,
            ({
                let c = stored_chain(old(self).dev(), old(self).bootsector, start_block);
                let c2 = stored_chain(final(self).dev(), old(self).bootsector, start_block);
                &&& (r is Err <==> num_free_from(old(self).dev(), old(self).bootsector, 0)
                        < (count - c.len()) as nat)
                &&& (r is Err ==> final(self).dev() == old(self).dev()
                        && r == Err::<(), crate::NoctFSError>(crate::NoctFSError::OutOfSpace))
                &&& (r is Ok ==> {
                    &&& crate::chainspec::valid_chain(final(self).dev(),
                            old(self).bootsector, start_block)
                    &&& c2.len() == count
                    &&& forall|i: int| 0 <= i < c.len() && i < count ==> c2[i] == c[i]
                    &&& forall|m: int| c.len() <= m < c2.len()
                            ==> is_free(old(self).dev(), old(self).bootsector,
                                #[trigger] c2[m] as int)
                    &&& forall|j: int| 0 <= j < old(self).bmc() && !c.contains(j as u64)
                            && !c2.contains(j as u64)
                            ==> map_entry(final(self).dev(), old(self).bootsector, j)
                                == map_entry(old(self).dev(), old(self).bootsector, j)
                    &&& forall|b: int| 0 <= b < old(self).bmc()
                            && !c2.skip(c.len() as int).contains(b as u64)
                            ==> block_bytes(final(self).dev(), old(self).bootsector, b)
                                == block_bytes(old(self).dev(), old(self).bootsector, b)
                    &&& forall|m: int| c.len() <= m < c2.len()
                            ==> block_bytes(final(self).dev(), old(self).bootsector,
                                #[trigger] c2[m] as int)
                                == zero_block_bytes(old(self).bootsector)
                })
                &&& forall|a: int| 0 <= a < old(self).bootsector.sector_size
                        ==> byte_at(final(self).dev(), a) == byte_at(old(self).dev(), a)
            }),
    {
        let ghost bs = self.bootsector;
        let ghost dev0 = self.dev();
        let ghost c = stored_chain(dev0, bs, start_block);
        let chain_length = self.get_chain(start_block).len();
        let r = self.extend_chain_by(start_block, (count - chain_length) as u32);
        proof {
            if r is Ok {
                let picked = free_seq(dev0, bs, 0, (count - c.len()) as nat)->Some_0;
                let c2 = stored_chain(self.dev(), bs, start_block);
                assert(c2 == c + picked);
                lemma_free_seq_props(dev0, bs, 0, (count - c.len()) as nat);
                assert(c2.skip(c.len() as int) =~= picked);
                assert forall|j: int| 0 <= j < bs.block_map_count as int
                        && !c.contains(j as u64) && !c2.contains(j as u64)
                    implies map_entry(self.dev(), bs, j) == map_entry(dev0, bs, j) by {
                    assert(!picked.contains(j as u64)) by {
                        if picked.contains(j as u64) {
                            let w = choose|w: int| 0 <= w < picked.len()
                                && picked[w] == j as u64;
                            assert(c2[c.len() + w] == j as u64);
                            assert(c2.contains(j as u64));
                        }
                    }
                    assert(j != c[c.len() - 1]) by {
                        if j == c[c.len() - 1] {
                            assert(c.contains(j as u64));
                        }
                    }
                }
                assert forall|b: int| 0 <= b < bs.block_map_count as int
                        && !c2.skip(c.len() as int).contains(b as u64)
                    implies block_bytes(self.dev(), bs, b)
                        == block_bytes(dev0, bs, b) by {
                    assert(!picked.contains(b as u64));
                }
                assert forall|m: int| c.len() <= m < c2.len()
                    implies block_bytes(self.dev(), bs, #[trigger] c2[m] as int)
                        == zero_block_bytes(bs) by {
                    assert(c2[m] == picked[m - c.len()]);
                }
            }
        }
        r
    }

    /// Allocate a fresh chain big enough to hold `byte_count` bytes.
    pub fn allocate_bytes(&mut self, byte_count: usize) -> (r: Option<BlockAddress>)
        requires
            old(self).wf(),
            byte_count as int
                <= u32::MAX as int * old(self).bootsector.block_size as int,
        ensures
            final(self).bootsector == old(self).bootsector,
            ({
                let count = blocks_for_bytes(byte_count as int,
                    old(self).bootsector.block_size as int);
                &&& (r is None <==> (count == 0
                        || num_free_from(old(self).dev(), old(self).bootsector, 0)
                            < count as nat))
                &&& (r is None ==> final(self).dev() == old(self).dev())
                &&& (r is Some ==> ({
                    let picked = free_seq(old(self).dev(), old(self).bootsector, 0,
                        count as nat)->Some_0;
                    &&& free_seq(old(self).dev(), old(self).bootsector, 0,
                            count as nat) is Some
                    &&& r == Some(picked[0])
                    &&& picked.len() == count
                    &&& is_chain_of(final(self).dev(), old(self).bootsector, picked[0],
                            picked)
                    &&& forall|k: int| 0 <= k < picked.len()
                            ==> map_entry(final(self).dev(), old(self).bootsector,
                                #[trigger] picked[k] as int)
                                == if k + 1 < picked.len() {
                                    picked[k + 1]
                                } else {
                                    END_OF_CHAIN
                                }
                    &&& forall|k: int| 0 <= k < picked.len()
                            ==> is_free(old(self).dev(), old(self).bootsector,
                                #[trigger] picked[k] as int)
                    &&& forall|j: int| 0 <= j < old(self).bmc()
                            && !picked.contains(j as u64)
                            ==> map_entry(final(self).dev(), old(self).bootsector, j)
                                == map_entry(old(self).dev(), old(self).bootsector, j)
                    &&& forall|b: int| 0 <= b < old(self).bmc()
                            && !picked.contains(b as u64)
                            ==> block_bytes(final(self).dev(), old(self).bootsector, b)
                                == block_bytes(old(self).dev(), old(self).bootsector, b)
                    &&& forall|k: int| 0 <= k < picked.len()
                            ==> block_bytes(final(self).dev(), old(self).bootsector,
                                #[trigger] picked[k] as int)
                                == zero_block_bytes(old(self).bootsector)
                    &&& forall|a: int| 0 <= a < old(self).bootsector.sector_size
                            ==> byte_at(final(self).dev(), a) == byte_at(old(self).dev(), a)
                }))
            }),
    {
        let bsz = self.bootsector.block_size as usize;
        let q = byte_count / bsz;
        let rem = byte_count % bsz;
        let blocks: usize = if rem == 0 { q } else { q + 1 };
        proof {
            let n = byte_count as int;
            let b = self.bootsector.block_size as int;
            assert(q == n / b && rem == n % b);
            assert(n / b + 1 <= u32::MAX + 1 && (n % b != 0 ==> n / b + 1 <= u32::MAX)
                && n / b <= u32::MAX) by (nonlinear_arith)
                requires
                    n <= u32::MAX as int * b,
                    b > 0,
                    n >= 0,
            ;
            assert(blocks as int == blocks_for_bytes(n, b));
        }
        self.allocate_blocks(blocks as u32)
    }

    /// The lowest-indexed free block at or after `from`, if any.
    pub fn find_free_from(&self, from: BlockAddress) -> (r: Option<BlockAddress>)
        requires
            self.wf(),
            from <= self.bootsector.block_map_count as u64,
        ensures
            r == first_free_from(self.dev(), self.bootsector, from as int),
    {
        let n = self.bootsector.block_map_count;
        let mut i: u32 = from as u32;
        while i < n
            invariant
                self.wf(),
                from <= i as u64 <= n as u64,
                n == self.bootsector.block_map_count,
                first_free_from(self.dev(), self.bootsector, from as int)
                    == first_free_from(self.dev(), self.bootsector, i as int),
            decreases n - i,
        {
            let v = self.get_block(i as u64);
            if v.unwrap() == 0 {
                return Some(i as u64);
            }
            i = i + 1;
        }
        None
    }

    /// The lowest-indexed free block, if any. First-fit scan from index 0.
    pub fn find_block(&self) -> (r: Option<BlockAddress>)
        requires
            self.wf(),
        ensures
            r == first_free_from(self.dev(), self.bootsector, 0),
    {
        self.find_free_from(0)
    }

    /// Walk the chain from `start_block`, collecting the visited blocks. The
    /// terminator is not part of the result.
    pub fn get_chain(&self, start_block: BlockAddress) -> (r: Vec<BlockAddress>)
        requires
            self.wf(),
            has_chain(self.dev(), self.bootsector, start_block),
        ensures
            is_chain_of(self.dev(), self.bootsector, start_block, r@),
            r@ == stored_chain(self.dev(), self.bootsector, start_block),
    {
        let ghost c = stored_chain(self.dev(), self.bootsector, start_block);
        proof {
            assert(is_chain_of(self.dev(), self.bootsector, start_block, c));
        }
        let n = self.bootsector.block_map_count as u64;
        let mut blocks: Vec<BlockAddress> = Vec::new();
        let mut current = start_block;
        while current < n
            invariant
                self.wf(),
                n == self.bootsector.block_map_count as u64,
                is_chain_of(self.dev(), self.bootsector, start_block, c),
                blocks@.len() <= c.len(),
                blocks@ == c.take(blocks@.len() as int),
                blocks@.len() < c.len() ==> current == c[blocks@.len() as int],
                blocks@.len() == c.len() ==> current >= n,
            decreases c.len() - blocks@.len(),
        {
            let next = self.get_block(current).unwrap();
            blocks.push(current);
            current = next;
            proof {
                assert(blocks@ =~= c.take(blocks@.len() as int));
            }
        }
        proof {
            assert(blocks@ =~= c);
        }
        blocks
    }
}

} // verus!
