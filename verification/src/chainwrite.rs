//! Chain I/O, write side: writing arbitrary byte ranges of an object whose
//! storage is a chain of blocks.

use vstd::prelude::*;
use vstd::arithmetic::div_mod::{
    lemma_fundamental_div_mod, lemma_fundamental_div_mod_converse, lemma_div_is_ordered,
};

use crate::bootsector::BootSector;
use crate::bytes::{byte_at, lemma_splice_byte_at};
use crate::chainio::{chain_addr, lemma_chain_addr_in_block, lemma_block_windows_disjoint};
use crate::chainspec::{
    map_entry, data_zone_offset, block_offset, block_bytes, is_chain_of, has_chain,
    stored_chain, lemma_chain_distinct,
};
use crate::device::Device;
use crate::fs::NoctFS;
use crate::BlockAddress;

verus! {

/// Whether device address `a` is covered by a write of `len` bytes at stream
/// offset `offset` into chain `c`.
pub open spec fn chain_written(
    bs: BootSector, c: Seq<u64>, offset: int, len: int, a: int,
) -> bool {
    exists|k: int| 0 <= k < len && (offset + k) / (bs.block_size as int) < c.len()
        && a == #[trigger] chain_addr(bs, c, offset + k)
}

/// A write confined to the blocks of a chain leaves the chainmap, the boot
/// sector, and every block outside the chain as they were.
pub proof fn lemma_chain_write_frames(
    dev0: Seq<u8>, dev1: Seq<u8>, bs: BootSector, c: Seq<u64>, offset: int, len: int,
)
    requires
        bs.wf(),
        0 <= offset,
        0 <= len,
        forall|i: int| 0 <= i < c.len() ==> #[trigger] c[i] < bs.block_map_count as u64,
        forall|a: int| !chain_written(bs, c, offset, len, a)
            ==> byte_at(dev1, a) == byte_at(dev0, a),
    ensures
        forall|j: int| 0 <= j < bs.block_map_count as int
            ==> map_entry(dev1, bs, j) == map_entry(dev0, bs, j),
        forall|b: int| 0 <= b < bs.block_map_count as int && !c.contains(b as u64)
            ==> block_bytes(dev1, bs, b) == block_bytes(dev0, bs, b),
        forall|a: int| 0 <= a < bs.sector_size ==> byte_at(dev1, a) == byte_at(dev0, a),
{
    let bsz = bs.block_size as int;
    assert forall|j: int| 0 <= j < bs.block_map_count as int
        implies map_entry(dev1, bs, j) == map_entry(dev0, bs, j) by {
        let e1 = crate::bytes::read_seq(dev1, bs.sector_size + 8 * j, 8);
        let e0 = crate::bytes::read_seq(dev0, bs.sector_size + 8 * j, 8);
        assert forall|t: int| 0 <= t < 8 implies e1[t] == e0[t] by {
            let a = bs.sector_size + 8 * j + t;
            assert(a < data_zone_offset(bs));
            assert(!chain_written(bs, c, offset, len, a)) by {
                if chain_written(bs, c, offset, len, a) {
                    let k = choose|k: int| 0 <= k < len && (offset + k) / bsz < c.len()
                        && a == #[trigger] chain_addr(bs, c, offset + k);
                    lemma_chain_addr_in_block(bs, c, offset + k);
                }
            }
        }
        assert(e1 =~= e0);
    }
    assert forall|a: int| 0 <= a < bs.sector_size
        implies byte_at(dev1, a) == byte_at(dev0, a) by {
        assert(!chain_written(bs, c, offset, len, a)) by {
            if chain_written(bs, c, offset, len, a) {
                let k = choose|k: int| 0 <= k < len && (offset + k) / bsz < c.len()
                    && a == #[trigger] chain_addr(bs, c, offset + k);
                lemma_chain_addr_in_block(bs, c, offset + k);
            }
        }
    }
    assert forall|b: int| 0 <= b < bs.block_map_count as int && !c.contains(b as u64)
        implies block_bytes(dev1, bs, b) == block_bytes(dev0, bs, b) by {
        let w1 = block_bytes(dev1, bs, b);
        let w0 = block_bytes(dev0, bs, b);
        assert forall|t: int| 0 <= t < bsz implies w1[t] == w0[t] by {
            let a = block_offset(bs, b) + t;
            assert(!chain_written(bs, c, offset, len, a)) by {
                if chain_written(bs, c, offset, len, a) {
                    let k = choose|k: int| 0 <= k < len && (offset + k) / bsz < c.len()
                        && a == #[trigger] chain_addr(bs, c, offset + k);
                    lemma_chain_addr_in_block(bs, c, offset + k);
                    let bk = c[(offset + k) / bsz] as int;
                    assert(bk != b);
                    lemma_block_windows_disjoint(bs, bk, b);
                }
            }
            assert(w1[t] == byte_at(dev1, a) && w0[t] == byte_at(dev0, a));
        }
        assert(w1 =~= w0);
    }
}

impl<D: Device> NoctFS<D> {
    /// Write `data` into the object stored at `start_block`, beginning at
    /// stream offset `offset`. A range that runs past the end of the chain is
    /// silently truncated. Only the chain's own blocks are touched.
    #[verifier::rlimit(100)]
    #[verifier::spinoff_prover]
    pub fn write_blocks_data(&mut self, start_block: BlockAddress, data: &[u8], offset: u64)
        requires
            old(self).wf(),
            has_chain(old(self).dev(), old(self).bootsector, start_block),
            offset + data@.len() <= u64::MAX,
        ensures
            final(self).bootsector == old(self).bootsector,
            ({
                let c = stored_chain(old(self).dev(), old(self).bootsector, start_block);
                let bsz = old(self).bootsector.block_size as int;
                &&& forall|k: int| 0 <= k < data@.len() && (offset + k) / bsz < c.len()
                        ==> byte_at(final(self).dev(),
                                #[trigger] chain_addr(old(self).bootsector, c, offset + k))
                            == data@[k]
                &&& forall|a: int| !chain_written(old(self).bootsector, c, offset as int,
                        data@.len() as int, a)
                        ==> byte_at(final(self).dev(), a) == byte_at(old(self).dev(), a)
                &&& forall|j: int| 0 <= j < old(self).bmc()
                        ==> map_entry(final(self).dev(), old(self).bootsector, j)
                            == map_entry(old(self).dev(), old(self).bootsector, j)
                &&& forall|b: int| 0 <= b < old(self).bmc() && !c.contains(b as u64)
                        ==> block_bytes(final(self).dev(), old(self).bootsector, b)
                            == block_bytes(old(self).dev(), old(self).bootsector, b)
                &&& forall|a: int| 0 <= a < old(self).bootsector.sector_size
                        ==> byte_at(final(self).dev(), a) == byte_at(old(self).dev(), a)
            }),
    {
        let ghost bs = self.bootsector;
        let ghost dev0 = self.dev();
        let ghost c = stored_chain(dev0, bs, start_block);
        let ghost bszi = bs.block_size as int;
        proof {
            lemma_chain_distinct(dev0, bs, start_block, c);
        }
        let bsz: u64 = self.bootsector.block_size as u64;
        let chain = self.get_chain(start_block);
        let skip: u64 = offset / bsz;
        let intra: u64 = offset % bsz;
        proof {
            lemma_fundamental_div_mod(offset as int, bszi);
        }
        if skip >= chain.len() as u64 {
            proof {
                assert forall|k: int| 0 <= k < data@.len()
                    implies (offset + k) / bszi >= c.len()
                        || byte_at(self.dev(),
                            #[trigger] chain_addr(bs, c, offset + k)) == data@[k] by {
                    lemma_div_is_ordered(offset as int, offset + k, bszi);
                }
                assert forall|a: int| !chain_written(bs, c, offset as int,
                        data@.len() as int, a)
                    implies byte_at(self.dev(), a) == byte_at(dev0, a) by {}
                lemma_chain_write_frames(dev0, self.dev(), bs, c, offset as int,
                    data@.len() as int);
            }
            return;
        }
        let dlen: usize = data.len();
        let clen: usize = chain.len();
        proof {
            assert(data@.len() == dlen);
            assert(c.len() == clen);
        }
        let mut pos: usize = 0;
        let mut ci: usize = skip as usize;
        while ci < chain.len() && pos < data.len()
            invariant
                self.wf(),
                bs == self.bootsector,
                bszi == bs.block_size as int,
                bsz == bs.block_size as u64,
                is_chain_of(dev0, bs, start_block, c),
                forall|i: int, j: int| 0 <= i < c.len() && 0 <= j < c.len() && i != j
                    ==> c[i] != c[j],
                chain@ == c,
                skip == offset as int / bszi,
                intra == offset as int % bszi,
                intra < bsz,
                skip < c.len(),
                c.len() <= usize::MAX,
                skip as int <= ci as int <= c.len(),
                offset + data@.len() <= u64::MAX,
                data@.len() <= usize::MAX,
                pos <= data@.len(),
                pos == data@.len()
                    || offset + pos == ci * bszi + if ci == skip { intra as int } else { 0 },
                forall|k: int| 0 <= k < pos
                    ==> (offset + k) / bszi < c.len()
                        && byte_at(self.dev(),
                                #[trigger] chain_addr(bs, c, offset + k)) == data@[k],
                forall|a: int| !chain_written(bs, c, offset as int, pos as int, a)
                    ==> byte_at(self.dev(), a) == byte_at(dev0, a),
            decreases c.len() - ci,
        {
            proof {
                lemma_fundamental_div_mod(offset as int, bszi);
                let b = c[ci as int] as int;
                assert(b * bszi + bszi <= (bs.block_map_count as int) * bszi)
                    by (nonlinear_arith)
                    requires b + 1 <= bs.block_map_count as int, bszi >= 0,
                ;
            }
            let block_off: u64 = if ci == skip as usize { intra } else { 0 };
            let avail: u64 = bsz - block_off;
            let remaining: usize = data.len() - pos;
            let take: usize = if (remaining as u64) < avail { remaining } else { avail as usize };
            let base: u64 = self.datazone_offset_with_block(chain[ci]) + block_off;
            let ghost pre = self.dev();
            let part = vstd::slice::slice_subrange(data, pos, pos + take);
            self.device.write_at(base, part);
            proof {
                lemma_splice_byte_at(pre, base as int, part@);
                // The bytes just written land at their stream addresses.
                assert forall|k: int| pos <= k < pos + take
                    implies (offset + k) / bszi < c.len()
                        && byte_at(self.dev(),
                                #[trigger] chain_addr(bs, c, offset + k)) == data@[k] by {
                    let q = offset + k;
                    lemma_fundamental_div_mod_converse(q, bszi, ci as int,
                        block_off + (k - pos));
                    assert(chain_addr(bs, c, q) == base + (k - pos));
                    assert(byte_at(self.dev(), base + (k - pos)) == part@[k - pos]);
                }
                // Bytes written earlier sit in earlier blocks, outside this
                // write's window.
                assert forall|k: int| 0 <= k < pos
                    implies (offset + k) / bszi < c.len()
                        && byte_at(self.dev(),
                                #[trigger] chain_addr(bs, c, offset + k)) == data@[k] by {
                    let q = offset + k;
                    let bi = q / bszi;
                    assert(bi < ci as int) by {
                        lemma_fundamental_div_mod(q, bszi);
                        assert(q < ci * bszi);
                        assert(bi * bszi + bszi <= ci * bszi ==> bi < ci as int)
                            by (nonlinear_arith)
                            requires bszi > 0,
                        ;
                        lemma_fundamental_div_mod_converse(ci * bszi - 1, bszi,
                            ci as int - 1, bszi - 1);
                        lemma_div_is_ordered(q, ci * bszi - 1, bszi);
                    }
                    assert(c[bi] != c[ci as int]);
                    lemma_chain_addr_in_block(bs, c, q);
                    lemma_block_windows_disjoint(bs, c[bi] as int, c[ci as int] as int);
                    assert(byte_at(self.dev(), chain_addr(bs, c, q))
                        == byte_at(pre, chain_addr(bs, c, q)));
                }
                // Everything outside the enlarged written range is untouched.
                assert forall|a: int| !chain_written(bs, c, offset as int,
                        (pos + take) as int, a)
                    implies byte_at(self.dev(), a) == byte_at(dev0, a) by {
                    assert(!chain_written(bs, c, offset as int, pos as int, a)) by {
                        if chain_written(bs, c, offset as int, pos as int, a) {
                            let k = choose|k: int| 0 <= k < pos
                                && (offset + k) / bszi < c.len()
                                && a == #[trigger] chain_addr(bs, c, offset + k);
                            assert(chain_written(bs, c, offset as int,
                                (pos + take) as int, a));
                        }
                    }
                    assert(!(base <= a < base + take)) by {
                        if base <= a < base + take {
                            let k = pos + (a - base);
                            lemma_fundamental_div_mod_converse(offset + k, bszi,
                                ci as int, block_off + (a - base));
                            assert(a == chain_addr(bs, c, offset + k));
                            assert(chain_written(bs, c, offset as int,
                                (pos + take) as int, a));
                        }
                    }
                    assert(byte_at(self.dev(), a) == byte_at(pre, a));
                }
            }
            proof {
                if take < remaining {
                    assert(take == avail as usize);
                    assert(offset + (pos + take) == (ci + 1) * bszi) by (nonlinear_arith)
                        requires
                            offset + pos == ci * bszi
                                + if ci == skip { intra as int } else { 0 },
                            take == bszi - if ci == skip { intra as int } else { 0 },
                    ;
                }
            }
            pos = pos + take;
            ci = ci + 1;
        }
        proof {
            if pos < data@.len() {
                assert(ci == c.len());
                assert(offset + pos == ci * bszi);
                assert forall|k: int| pos <= k < data@.len()
                    implies (offset + k) / bszi >= c.len()
                        || byte_at(self.dev(),
                            #[trigger] chain_addr(bs, c, offset + k)) == data@[k] by {
                    lemma_div_is_ordered(offset + pos, offset + k, bszi);
                    lemma_fundamental_div_mod_converse(offset + pos, bszi, ci as int, 0);
                }
            }
            // A covered stream offset beyond `pos` does not exist, so the
            // written set over the full length is the one over `pos`.
            assert forall|a: int| !chain_written(bs, c, offset as int,
                    data@.len() as int, a)
                implies byte_at(self.dev(), a) == byte_at(dev0, a) by {
                assert(!chain_written(bs, c, offset as int, pos as int, a)) by {
                    if chain_written(bs, c, offset as int, pos as int, a) {
                        let k = choose|k: int| 0 <= k < pos
                            && (offset + k) / bszi < c.len()
                            && a == #[trigger] chain_addr(bs, c, offset + k);
                        assert(chain_written(bs, c, offset as int,
                            data@.len() as int, a));
                    }
                }
            }
            lemma_chain_write_frames(dev0, self.dev(), bs, c, offset as int,
                data@.len() as int);
        }
    }

}

} // verus!
