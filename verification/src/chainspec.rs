//! The mathematical model of the chainmap.
//!
//! The chainmap is an array of little-endian u64 successor entries starting
//! at device offset `sector_size`. Entry `b` is `0` when block `b` is free,
//! and otherwise names the successor of `b` in some chain; a value at or
//! beyond `block_map_count` (in particular the `END_OF_CHAIN` sentinel)
//! terminates the chain. A chain is the walk of successors from a start
//! block; a terminating walk is unique and visits no block twice.

use vstd::prelude::*;
use vstd::bytes::spec_u64_from_le_bytes;

use crate::bootsector::BootSector;
use crate::bytes::{byte_at, read_seq};

verus! {

/// The chainmap entry of block `nr`.
pub open spec fn map_entry(dev: Seq<u8>, bs: BootSector, nr: int) -> u64 {
    spec_u64_from_le_bytes(read_seq(dev, bs.sector_size + 8 * nr, 8))
}

/// Block `nr` is free.
pub open spec fn is_free(dev: Seq<u8>, bs: BootSector, nr: int) -> bool {
    map_entry(dev, bs, nr) == 0
}

/// Entry 0 is reserved (never free), so allocation never hands out block 0.
pub open spec fn block_zero_reserved(dev: Seq<u8>, bs: BootSector) -> bool {
    map_entry(dev, bs, 0) != 0
}

/// Byte offset where the data zone starts.
pub open spec fn data_zone_offset(bs: BootSector) -> int {
    bs.sector_size + 8 * (bs.block_map_count as int)
}

/// Byte offset of data-zone block `b`.
pub open spec fn block_offset(bs: BootSector, b: int) -> int {
    data_zone_offset(bs) + b * (bs.block_size as int)
}

/// The data of block `b`.
pub open spec fn block_bytes(dev: Seq<u8>, bs: BootSector, b: int) -> Seq<u8> {
    read_seq(dev, block_offset(bs, b), bs.block_size as nat)
}

/// `c` is the (terminating) walk of chainmap successors from `start`: empty
/// exactly when `start` is out of range, otherwise it begins at `start`,
/// steps through successor entries, and ends at the block whose successor is
/// out of range (normally `END_OF_CHAIN`).
pub open spec fn is_chain_of(dev: Seq<u8>, bs: BootSector, start: u64, c: Seq<u64>) -> bool {
    let n = bs.block_map_count as u64;
    &&& (c.len() == 0 <==> start >= n)
    &&& (c.len() > 0 ==> c[0] == start)
    &&& (forall|i: int| 0 <= i < c.len() ==> #[trigger] c[i] < n)
    &&& (forall|i: int| 0 <= i < c.len() - 1
            ==> map_entry(dev, bs, #[trigger] c[i] as int) == c[i + 1])
    &&& (c.len() > 0 ==> map_entry(dev, bs, c[c.len() - 1] as int) >= n)
}

/// The walk from `start` terminates.
pub open spec fn has_chain(dev: Seq<u8>, bs: BootSector, start: u64) -> bool {
    exists|c: Seq<u64>| is_chain_of(dev, bs, start, c)
}

/// The walk from `start`, when it terminates.
pub open spec fn stored_chain(dev: Seq<u8>, bs: BootSector, start: u64) -> Seq<u64> {
    choose|c: Seq<u64>| is_chain_of(dev, bs, start, c)
}

/// A chain fit to carry an object: it terminates and never passes through
/// the reserved block 0, so none of its members is marked free.
pub open spec fn valid_chain(dev: Seq<u8>, bs: BootSector, start: u64) -> bool {
    &&& has_chain(dev, bs, start)
    &&& forall|i: int| 0 <= i < stored_chain(dev, bs, start).len()
            ==> #[trigger] stored_chain(dev, bs, start)[i] != 0
}

/// The suffix of a chain is the chain of its member.
pub proof fn lemma_chain_suffix(dev: Seq<u8>, bs: BootSector, start: u64, c: Seq<u64>, i: int)
    requires
        is_chain_of(dev, bs, start, c),
        0 <= i < c.len(),
    ensures
        is_chain_of(dev, bs, c[i], c.skip(i)),
{
    let s = c.skip(i);
    assert(forall|k: int| 0 <= k < s.len() ==> s[k] == c[i + k]);
}

/// A terminating walk is unique.
#[verifier::rlimit(50)]
pub proof fn lemma_chain_unique(dev: Seq<u8>, bs: BootSector, start: u64, c1: Seq<u64>, c2: Seq<u64>)
    requires
        is_chain_of(dev, bs, start, c1),
        is_chain_of(dev, bs, start, c2),
    ensures
        c1 == c2,
    decreases c1.len(),
{
    let n = bs.block_map_count as u64;
    if start >= n {
        assert(c1 =~= c2);
    } else {
        assert(c1.len() > 0 && c2.len() > 0);
        assert(c1[0] == start && c2[0] == start);
        let next = map_entry(dev, bs, start as int);
        if c1.len() == 1 {
            assert(next >= n);
            if c2.len() > 1 {
                assert(c2[1] == next);
                assert(c2[1] < n);
                assert(false);
            }
            assert(c1 =~= c2);
        } else {
            assert(c1[1] == next);
            assert(next < n);
            if c2.len() == 1 {
                assert(map_entry(dev, bs, c2[0] as int) >= n);
                assert(false);
            }
            lemma_chain_suffix(dev, bs, start, c1, 1);
            lemma_chain_suffix(dev, bs, start, c2, 1);
            lemma_chain_unique(dev, bs, next, c1.skip(1), c2.skip(1));
            assert forall|i: int| 0 <= i < c1.len() implies c1[i] == c2[i] by {
                if i > 0 {
                    assert(c1.skip(1)[i - 1] == c2.skip(1)[i - 1]);
                }
            }
            assert(c1 =~= c2);
        }
    }
}

/// The stored chain is the one the walk defines.
pub proof fn lemma_stored_chain(dev: Seq<u8>, bs: BootSector, start: u64, c: Seq<u64>)
    requires
        is_chain_of(dev, bs, start, c),
    ensures
        stored_chain(dev, bs, start) == c,
{
    let c2 = stored_chain(dev, bs, start);
    assert(is_chain_of(dev, bs, start, c2));
    lemma_chain_unique(dev, bs, start, c2, c);
}

/// A terminating walk visits no block twice.
pub proof fn lemma_chain_distinct(dev: Seq<u8>, bs: BootSector, start: u64, c: Seq<u64>)
    requires
        is_chain_of(dev, bs, start, c),
    ensures
        forall|i: int, j: int| 0 <= i < c.len() && 0 <= j < c.len() && i != j
            ==> c[i] != c[j],
{
    let n = bs.block_map_count as u64;
    assert forall|i: int, j: int| 0 <= i < c.len() && 0 <= j < c.len() && i != j
        implies c[i] != c[j] by {
        if c[i] == c[j] {
            let a = if i < j { i } else { j };
            let b = if i < j { j } else { i };
            lemma_chain_suffix(dev, bs, start, c, a);
            lemma_chain_suffix(dev, bs, start, c, b);
            lemma_chain_unique(dev, bs, c[a], c.skip(a), c.skip(b));
            assert(c.skip(a).len() == c.skip(b).len());
        }
    }
}

/// Every member of a valid chain carries a nonzero entry, so none is free.
pub proof fn lemma_valid_chain_members_not_free(dev: Seq<u8>, bs: BootSector, start: u64)
    requires
        valid_chain(dev, bs, start),
    ensures
        forall|i: int| 0 <= i < stored_chain(dev, bs, start).len()
            ==> !is_free(dev, bs, #[trigger] stored_chain(dev, bs, start)[i] as int),
{
    let c = stored_chain(dev, bs, start);
    assert(is_chain_of(dev, bs, start, c));
    assert forall|i: int| 0 <= i < c.len()
        implies !is_free(dev, bs, c[i] as int) by {
        if i < c.len() - 1 {
            assert(map_entry(dev, bs, c[i] as int) == c[i + 1]);
            assert(c[i + 1] != 0);
        } else {
            assert(map_entry(dev, bs, c[i] as int) >= bs.block_map_count as u64);
            assert(bs.block_map_count as u64 >= 1) by {
                assert(c[i] < bs.block_map_count as u64);
            }
        }
    }
}

/// The lowest free block at or after index `i`, if any.
pub open spec fn first_free_from(dev: Seq<u8>, bs: BootSector, i: int) -> Option<u64>
    decreases bs.block_map_count - i when 0 <= i
{
    if i >= bs.block_map_count as int {
        None
    } else if is_free(dev, bs, i) {
        Some(i as u64)
    } else {
        first_free_from(dev, bs, i + 1)
    }
}

/// The number of free blocks at or after index `i`.
pub open spec fn num_free_from(dev: Seq<u8>, bs: BootSector, i: int) -> nat
    decreases bs.block_map_count - i when 0 <= i
{
    if i >= bs.block_map_count as int {
        0
    } else if is_free(dev, bs, i) {
        1 + num_free_from(dev, bs, i + 1)
    } else {
        num_free_from(dev, bs, i + 1)
    }
}

/// The first `count` free blocks at or after index `i`, in ascending order,
/// if that many exist.
pub open spec fn free_seq(dev: Seq<u8>, bs: BootSector, i: int, count: nat) -> Option<Seq<u64>>
    decreases count
{
    if count == 0 {
        Some(Seq::empty())
    } else {
        match first_free_from(dev, bs, i) {
            None => None,
            Some(b) => match free_seq(dev, bs, b + 1, (count - 1) as nat) {
                None => None,
                Some(rest) => Some(seq![b] + rest),
            },
        }
    }
}

/// What `first_free_from` returns is a free block in range, at or after `i`,
/// with nothing free in between; `None` means nothing at or after `i` is free.
pub proof fn lemma_first_free_props(dev: Seq<u8>, bs: BootSector, i: int)
    requires
        0 <= i,
    ensures
        match first_free_from(dev, bs, i) {
            Some(b) => i <= b < bs.block_map_count && is_free(dev, bs, b as int)
                && forall|j: int| i <= j < b ==> !is_free(dev, bs, j),
            None => forall|j: int| i <= j < bs.block_map_count ==> !is_free(dev, bs, j),
        },
    decreases bs.block_map_count - i,
{
    if i >= bs.block_map_count as int {
    } else if is_free(dev, bs, i) {
    } else {
        lemma_first_free_props(dev, bs, i + 1);
    }
}

/// The members of a `free_seq` are free, in range, ascending, and at or
/// after `i`; `None` comes exactly when fewer than `count` blocks at or
/// after `i` are free.
pub proof fn lemma_free_seq_props(dev: Seq<u8>, bs: BootSector, i: int, count: nat)
    requires
        0 <= i,
    ensures
        free_seq(dev, bs, i, count) is Some <==> num_free_from(dev, bs, i) >= count,
        match free_seq(dev, bs, i, count) {
            Some(picked) => {
                &&& picked.len() == count
                &&& forall|k: int| 0 <= k < count
                        ==> i <= #[trigger] picked[k] < bs.block_map_count
                            && is_free(dev, bs, picked[k] as int)
                &&& forall|k: int| 0 <= k < count - 1 ==> #[trigger] picked[k] < picked[k + 1]
            },
            None => true,
        },
    decreases count,
{
    if count == 0 {
    } else {
        lemma_first_free_props(dev, bs, i);
        match first_free_from(dev, bs, i) {
            None => {
                lemma_num_free_zero(dev, bs, i);
            },
            Some(b) => {
                lemma_free_seq_props(dev, bs, b + 1, (count - 1) as nat);
                lemma_num_free_step(dev, bs, i, b as int);
            },
        }
    }
}

/// With no free block at or after `i`, the free count from `i` is zero.
proof fn lemma_num_free_zero(dev: Seq<u8>, bs: BootSector, i: int)
    requires
        0 <= i,
        forall|j: int| i <= j < bs.block_map_count ==> !is_free(dev, bs, j),
    ensures
        num_free_from(dev, bs, i) == 0,
    decreases bs.block_map_count - i,
{
    if i < bs.block_map_count as int {
        lemma_num_free_zero(dev, bs, i + 1);
    }
}

/// When `b` is the first free block at or after `i`, the free count from `i`
/// is one more than the free count after `b`.
proof fn lemma_num_free_step(dev: Seq<u8>, bs: BootSector, i: int, b: int)
    requires
        0 <= i <= b < bs.block_map_count,
        is_free(dev, bs, b),
        forall|j: int| i <= j < b ==> !is_free(dev, bs, j),
    ensures
        num_free_from(dev, bs, i) == 1 + num_free_from(dev, bs, b + 1),
    decreases b - i,
{
    if i < b {
        lemma_num_free_step(dev, bs, i + 1, b);
    }
}

/// Extending a successful `free_seq` by one more block scans on from just
/// past its last member.
pub proof fn lemma_free_seq_snoc(dev: Seq<u8>, bs: BootSector, i: int, k: nat, p: Seq<u64>)
    requires
        0 <= i,
        free_seq(dev, bs, i, k) == Some(p),
    ensures
        free_seq(dev, bs, i, k + 1) == (match first_free_from(
            dev, bs, if k == 0 { i } else { p[k - 1] + 1 },
        ) {
            None => None::<Seq<u64>>,
            Some(b) => Some(p.push(b)),
        }),
    decreases k,
{
    lemma_free_seq_props(dev, bs, i, k);
    if k == 0 {
        assert(p =~= Seq::<u64>::empty());
        match first_free_from(dev, bs, i) {
            None => {},
            Some(b) => {
                assert(free_seq(dev, bs, b + 1, 0) == Some(Seq::<u64>::empty()));
                assert(seq![b] + Seq::<u64>::empty() =~= p.push(b));
            },
        }
    } else {
        let b0 = first_free_from(dev, bs, i)->Some_0;
        let rest = free_seq(dev, bs, b0 + 1, (k - 1) as nat)->Some_0;
        assert(p == seq![b0] + rest);
        lemma_free_seq_snoc(dev, bs, b0 + 1, (k - 1) as nat, rest);
        let scan = if k == 1 { b0 + 1 } else { rest[k - 2] + 1 };
        assert(p[k - 1] == rest[k - 2] || k == 1);
        assert(scan == p[k - 1] + 1);
        match first_free_from(dev, bs, scan) {
            None => {},
            Some(b) => {
                assert(free_seq(dev, bs, b0 + 1, k) == Some(rest.push(b)));
                assert(seq![b0] + rest.push(b) =~= p.push(b));
            },
        }
    }
}

/// Nothing before index `i` is free: the first free block overall is the
/// first free block at or after `i`.
pub proof fn lemma_first_free_prefix(dev: Seq<u8>, bs: BootSector, i: int)
    requires
        0 <= i,
        forall|j: int| 0 <= j < i ==> !is_free(dev, bs, j),
    ensures
        first_free_from(dev, bs, 0) == first_free_from(dev, bs, i),
    decreases i,
{
    if i > 0 {
        assert(!is_free(dev, bs, i - 1));
        lemma_first_free_prefix(dev, bs, i - 1);
        if i - 1 >= bs.block_map_count as int {
            assert(first_free_from(dev, bs, i - 1) == None::<u64>);
            assert(first_free_from(dev, bs, i) == None::<u64>);
        } else {
            assert(first_free_from(dev, bs, i - 1) == first_free_from(dev, bs, i));
        }
    }
}

/// A terminating walk has no room for more blocks than the chainmap holds.
pub proof fn lemma_chain_len_bounded(dev: Seq<u8>, bs: BootSector, start: u64, c: Seq<u64>)
    requires
        is_chain_of(dev, bs, start, c),
    ensures
        c.len() <= bs.block_map_count,
{
    lemma_chain_distinct(dev, bs, start, c);
    let ci = c.map_values(|x: u64| x as int);
    assert(ci.no_duplicates()) by {
        assert forall|i: int, j: int| 0 <= i < ci.len() && 0 <= j < ci.len() && i != j
            implies ci[i] != ci[j] by {
            assert(c[i] != c[j]);
        }
    }
    ci.unique_seq_to_set();
    let range = vstd::set_lib::set_int_range(0, bs.block_map_count as int);
    assert(ci.to_set().subset_of(range)) by {
        assert forall|x: int| ci.to_set().contains(x) implies range.contains(x) by {
            let i = choose|i: int| 0 <= i < ci.len() && ci[i] == x;
            assert(c[i] < bs.block_map_count as u64);
        }
    }
    vstd::set_lib::lemma_int_range(0, bs.block_map_count as int);
    vstd::set_lib::lemma_len_subset(ci.to_set(), range);
}

/// How many blocks of size `bsz` are needed to hold `n` bytes.
pub open spec fn blocks_for_bytes(n: int, bsz: int) -> int {
    if n % bsz == 0 {
        n / bsz
    } else {
        n / bsz + 1
    }
}

/// Marking one free block as used lowers the free count by one, from every
/// scan position at or before it.
pub proof fn lemma_num_free_one_less(
    dev0: Seq<u8>, dev1: Seq<u8>, bs: BootSector, b: int, i: int,
)
    requires
        0 <= b < bs.block_map_count,
        is_free(dev0, bs, b),
        !is_free(dev1, bs, b),
        forall|j: int| 0 <= j < bs.block_map_count && j != b
            ==> map_entry(dev1, bs, j) == map_entry(dev0, bs, j),
        0 <= i,
    ensures
        num_free_from(dev1, bs, i)
            == num_free_from(dev0, bs, i) - (if i <= b { 1int } else { 0 }),
    decreases bs.block_map_count - i,
{
    if i < bs.block_map_count as int {
        lemma_num_free_one_less(dev0, dev1, bs, b, i + 1);
    }
}

/// A sequence that ascends step by step ascends between any two positions.
pub proof fn lemma_ascending_pairwise(s: Seq<u64>, m: int, m2: int)
    requires
        forall|k: int| 0 <= k < s.len() - 1 ==> #[trigger] s[k] < s[k + 1],
        0 <= m < m2 < s.len(),
    ensures
        s[m] < s[m2],
    decreases m2 - m,
{
    if m2 > m + 1 {
        lemma_ascending_pairwise(s, m, m2 - 1);
    }
}

/// Two images that agree on every chainmap entry and have the same geometry
/// define the same walks.
pub proof fn lemma_chain_same_entries(
    dev1: Seq<u8>, dev2: Seq<u8>, bs: BootSector, start: u64, c: Seq<u64>,
)
    requires
        is_chain_of(dev1, bs, start, c),
        forall|j: int| 0 <= j < bs.block_map_count
            ==> map_entry(dev2, bs, j) == map_entry(dev1, bs, j),
    ensures
        is_chain_of(dev2, bs, start, c),
{
}

/// A walk survives any change that leaves its own members' entries alone.
pub proof fn lemma_chain_frame(
    dev1: Seq<u8>, dev2: Seq<u8>, bs: BootSector, start: u64, c: Seq<u64>,
)
    requires
        is_chain_of(dev1, bs, start, c),
        forall|i: int| 0 <= i < c.len()
            ==> map_entry(dev2, bs, #[trigger] c[i] as int)
                == map_entry(dev1, bs, c[i] as int),
    ensures
        is_chain_of(dev2, bs, start, c),
{
}

} // verus!
