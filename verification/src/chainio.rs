//! Chain I/O: reading and writing arbitrary byte ranges of an object whose
//! storage is a chain of blocks.
//!
//! A byte offset `q` into the object's stream lives in the chain's block
//! number `q / block_size`, at offset `q % block_size` inside that block.

use vstd::prelude::*;
use vstd::arithmetic::div_mod::{
    lemma_fundamental_div_mod, lemma_fundamental_div_mod_converse, lemma_div_is_ordered,
};

use crate::bootsector::BootSector;
use crate::bytes::{byte_at, lemma_splice_byte_at};
use crate::chainspec::{
    map_entry, data_zone_offset, block_offset, block_bytes, is_chain_of, has_chain,
    stored_chain, lemma_chain_distinct,
};
use crate::device::Device;
use crate::fs::NoctFS;
use crate::BlockAddress;

verus! {

/// The device address holding byte `q` of the stream stored in chain `c`.
pub open spec fn chain_addr(bs: BootSector, c: Seq<u64>, q: int) -> int {
    block_offset(bs, c[q / (bs.block_size as int)] as int) + q % (bs.block_size as int)
}

/// Byte `q` of the stream stored in chain `c`.
pub open spec fn chain_byte(dev: Seq<u8>, bs: BootSector, c: Seq<u64>, q: int) -> u8 {
    byte_at(dev, chain_addr(bs, c, q))
}

/// The full stream stored in chain `c`: all its blocks, in chain order.
pub open spec fn chain_bytes(dev: Seq<u8>, bs: BootSector, c: Seq<u64>) -> Seq<u8> {
    Seq::new((c.len() * bs.block_size as nat) as nat, |q: int| chain_byte(dev, bs, c, q))
}

/// A stream byte lies inside its block's window in the data zone.
pub proof fn lemma_chain_addr_in_block(bs: BootSector, c: Seq<u64>, q: int)
    requires
        bs.wf(),
        0 <= q,
        q / (bs.block_size as int) < c.len(),
        forall|i: int| 0 <= i < c.len() ==> #[trigger] c[i] < bs.block_map_count as u64,
    ensures
        block_offset(bs, c[q / (bs.block_size as int)] as int) <= chain_addr(bs, c, q)
            < block_offset(bs, c[q / (bs.block_size as int)] as int) + bs.block_size,
        data_zone_offset(bs) <= chain_addr(bs, c, q) < usize::MAX,
{
    let bsz = bs.block_size as int;
    let bi = q / bsz;
    lemma_fundamental_div_mod(q, bsz);
    assert(0 <= q % bsz < bsz);
    assert(0 <= bi);
    let b = c[bi] as int;
    assert(b < bs.block_map_count as int);
    assert(0 <= b * bsz && b * bsz + bsz <= (bs.block_map_count as int) * bsz)
        by (nonlinear_arith)
        requires 0 <= b, b + 1 <= bs.block_map_count as int, bsz > 0,
    ;
}

/// Distinct blocks occupy disjoint windows of the data zone.
pub proof fn lemma_block_windows_disjoint(bs: BootSector, b1: int, b2: int)
    requires
        bs.block_size > 0,
        0 <= b1,
        0 <= b2,
        b1 != b2,
    ensures
        block_offset(bs, b1) + bs.block_size <= block_offset(bs, b2)
            || block_offset(bs, b2) + bs.block_size <= block_offset(bs, b1),
{
    let bsz = bs.block_size as int;
    assert(b1 * bsz + bsz <= b2 * bsz || b2 * bsz + bsz <= b1 * bsz) by (nonlinear_arith)
        requires bsz > 0, b1 + 1 <= b2 || b2 + 1 <= b1,
    ;
}

/// Two different stream offsets of a duplicate-free chain live at two
/// different device addresses.
pub proof fn lemma_chain_addr_injective(bs: BootSector, c: Seq<u64>, q1: int, q2: int)
    requires
        bs.block_size > 0,
        0 <= q1,
        0 <= q2,
        q1 != q2,
        q1 / (bs.block_size as int) < c.len(),
        q2 / (bs.block_size as int) < c.len(),
        forall|i: int, j: int| 0 <= i < c.len() && 0 <= j < c.len() && i != j
            ==> c[i] != c[j],
    ensures
        chain_addr(bs, c, q1) != chain_addr(bs, c, q2),
{
    let bsz = bs.block_size as int;
    lemma_fundamental_div_mod(q1, bsz);
    lemma_fundamental_div_mod(q2, bsz);
    if q1 / bsz == q2 / bsz {
        assert(q1 % bsz != q2 % bsz);
    } else {
        assert(c[q1 / bsz] != c[q2 / bsz]);
        lemma_block_windows_disjoint(bs, c[q1 / bsz] as int, c[q2 / bsz] as int);
    }
}

impl<D: Device> NoctFS<D> {
    /// Read bytes of the object stored at `start_block` into `data`,
    /// beginning at stream offset `offset`. A range that runs past the end
    /// of the chain is silently truncated: the bytes of `data` past the
    /// covered range keep their old values.
    #[verifier::rlimit(100)]
    #[verifier::spinoff_prover]
    #[verifier::loop_isolation(false)]
    pub fn read_blocks_data(&self, start_block: BlockAddress, data: &mut Vec<u8>, offset: u64)
        requires
            self.wf(),
            has_chain(self.dev(), self.bootsector, start_block),
            offset + old(data)@.len() <= u64::MAX,
        ensures
            final(data)@.len() == old(data)@.len(),
            ({
                let c = stored_chain(self.dev(), self.bootsector, start_block);
                let bsz = self.bootsector.block_size as int;
                forall|k: int| 0 <= k < old(data)@.len()
                    ==> final(data)@[k] == if (offset + k) / bsz < c.len() {
                        chain_byte(self.dev(), self.bootsector, c, offset + k)
                    } else {
                        old(data)@[k]
                    }
            }),
    {
        let ghost bs = self.bootsector;
        let ghost c = stored_chain(self.dev(), bs, start_block);
        let ghost bszi = bs.block_size as int;
        let bsz: u64 = self.bootsector.block_size as u64;
        let chain = self.get_chain(start_block);
        let skip: u64 = offset / bsz;
        let intra: u64 = offset % bsz;
        proof {
            lemma_fundamental_div_mod(offset as int, bszi);
        }
        if skip >= chain.len() as u64 {
            proof {
                assert forall|k: int| 0 <= k < data@.len()
                    implies #[trigger] data@[k] == old(data)@[k]
                        && (offset + k) / bszi >= c.len() by {
                    lemma_div_is_ordered(offset as int, offset + k, bszi);
                }
            }
            return;
        }
        let dlen: usize = data.len();
        let clen: usize = chain.len();
        proof {
            assert(data@.len() == dlen);
            assert(c.len() == clen);
        }
        let mut pos: usize = 0;
        let mut ci: usize = skip as usize;
        while ci < chain.len() && pos < data.len()
            invariant
                self.wf(),
                bs == self.bootsector,
                bszi == bs.block_size as int,
                bsz == bs.block_size as u64,
                is_chain_of(self.dev(), bs, start_block, c),
                chain@ == c,
                skip == offset as int / bszi,
                intra == offset as int % bszi,
                intra < bsz,
                skip < c.len(),
                c.len() <= usize::MAX,
                skip as int <= ci as int <= c.len(),
                offset + data@.len() <= u64::MAX,
                data@.len() <= usize::MAX,
                data@.len() == old(data)@.len(),
                pos <= data@.len(),
                pos == data@.len()
                    || offset + pos == ci * bszi + if ci == skip { intra as int } else { 0 },
                forall|k: int| 0 <= k < pos
                    ==> (offset + k) / bszi < c.len()
                        && data@[k] == chain_byte(self.dev(), bs, c, offset + k),
                forall|k: int| pos <= k < data@.len() ==> data@[k] == old(data)@[k],
            decreases c.len() - ci,
        {
            proof {
                lemma_fundamental_div_mod(offset as int, bszi);
                let b = c[ci as int] as int;
                assert(b * bszi + bszi <= (bs.block_map_count as int) * bszi)
                    by (nonlinear_arith)
                    requires b + 1 <= bs.block_map_count as int, bszi >= 0,
                ;
            }
            let block_off: u64 = if ci == skip as usize { intra } else { 0 };
            let avail: u64 = bsz - block_off;
            let remaining: usize = data.len() - pos;
            let take: usize = if (remaining as u64) < avail { remaining } else { avail as usize };
            let base: u64 = self.datazone_offset_with_block(chain[ci]) + block_off;
            let buf = self.device.read_at(base, take);
            let ghost pre = data@;
            let mut t: usize = 0;
            while t < take
                invariant
                    0 < take,
                    pos + take <= data@.len(),
                    data@.len() <= usize::MAX,
                    t <= take,
                    buf@.len() == take,
                    data@.len() == pre.len(),
                    forall|k: int| 0 <= k < pos + t ==> data@[k]
                        == if k < pos { pre[k] } else { buf@[k - pos] },
                    forall|k: int| pos + t <= k < data@.len() ==> data@[k] == pre[k],
                decreases take - t,
            {
                data.set(pos + t, buf[t]);
                t = t + 1;
            }
            proof {
                // Each copied byte is the stream byte it claims to be.
                assert forall|k: int| pos <= k < pos + take
                    implies (offset + k) / bszi < c.len()
                        && data@[k] == chain_byte(self.dev(), bs, c, offset + k) by {
                    let q = offset + k;
                    lemma_fundamental_div_mod_converse(q, bszi, ci as int,
                        block_off + (k - pos));
                    assert(q / bszi == ci as int);
                    assert(q % bszi == block_off + (k - pos));
                    assert(buf@[k - pos] == byte_at(self.dev(), base + (k - pos)));
                }
                assert forall|k: int| 0 <= k < pos
                    implies (offset + k) / bszi < c.len()
                        && data@[k] == chain_byte(self.dev(), bs, c, offset + k) by {
                    assert(data@[k] == pre[k]);
                }
            }
            proof {
                if take < remaining {
                    assert(take == avail as usize);
                    assert(offset + (pos + take) == (ci + 1) * bszi) by (nonlinear_arith)
                        requires
                            offset + pos == ci * bszi
                                + if ci == skip { intra as int } else { 0 },
                            take == bszi - if ci == skip { intra as int } else { 0 },
                    ;
                }
            }
            pos = pos + take;
            ci = ci + 1;
            proof {
                assert forall|k: int| 0 <= k < pos
                    implies (offset + k) / bszi < c.len()
                        && data@[k] == chain_byte(self.dev(), bs, c, offset + k) by {
                    if k < pos - take {
                        assert(data@[k] == chain_byte(self.dev(), bs, c, offset + k));
                    } else {
                        assert(pos - take <= k < pos - take + take);
                        assert(data@[k] == chain_byte(self.dev(), bs, c, offset + k));
                    }
                }
            }
        }
        proof {
            if pos < data@.len() {
                assert(ci == c.len());
                assert(offset + pos == ci * bszi);
                assert forall|k: int| pos <= k < data@.len()
                    implies #[trigger] data@[k] == old(data)@[k]
                        && (offset + k) / bszi >= c.len() by {
                    lemma_div_is_ordered(offset + pos, offset + k, bszi);
                    lemma_fundamental_div_mod_converse(offset + pos, bszi, ci as int, 0);
                }
            }
        }
    }

    /// Read the whole stream of the object stored at `start_block`: as many
    /// bytes as its chain has blocks.
    pub fn read_chain_data_vec(&self, start_block: BlockAddress) -> (r: Vec<u8>)
        requires
            self.wf(),
            has_chain(self.dev(), self.bootsector, start_block),
        ensures
            r@ == chain_bytes(self.dev(), self.bootsector,
                stored_chain(self.dev(), self.bootsector, start_block)),
    {
        let ghost bs = self.bootsector;
        let ghost c = stored_chain(self.dev(), bs, start_block);
        let ghost bszi = bs.block_size as int;
        let chain = self.get_chain(start_block);
        proof {
            crate::chainspec::lemma_chain_len_bounded(self.dev(), bs, start_block, c);
            assert(c.len() * bszi <= (bs.block_map_count as int) * bszi)
                by (nonlinear_arith)
                requires c.len() <= bs.block_map_count as int, bszi >= 0,
            ;
        }
        let total: usize = chain.len() * self.bootsector.block_size as usize;
        let mut data = crate::bytes::zero_vec(total);
        self.read_blocks_data(start_block, &mut data, 0);
        proof {
            assert forall|k: int| 0 <= k < total
                implies #[trigger] data@[k] == chain_byte(self.dev(), bs, c, k) by {
                assert(k / bszi < c.len()) by {
                    lemma_fundamental_div_mod_converse(c.len() * bszi - 1, bszi,
                        c.len() - 1, bszi - 1);
                    lemma_div_is_ordered(k, c.len() * bszi - 1, bszi);
                }
            }
            assert(data@ =~= chain_bytes(self.dev(), bs, c));
        }
        data
    }
}

} // verus!
