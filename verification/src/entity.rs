//! Directory entity records and their on-disk codec.
//!
//! A record is packed little-endian:
//! a `header_size` word (the byte length of everything after that word),
//! the name length, the name bytes, the object size, the start block, the
//! flags word, and the vendor-data length (always zero in this version).

use vstd::prelude::*;
use vstd::bytes::{
    spec_u64_to_le_bytes, spec_u64_from_le_bytes, u64_to_le_bytes, u64_from_le_bytes,
    lemma_auto_spec_u64_to_from_le_bytes,
};
use vstd::slice::{slice_subrange, slice_to_vec};

use crate::bytes::{u32_le_bytes, u32_of_le_bytes, read_u32_le, write_u32_le,
    lemma_u32_le_round};

use crate::NoctFSError;
use crate::BlockAddress;

verus! {

/// Entity flag bits. Bit 0 marks a directory; all other bits are reserved
/// and rejected by the decoder.
#[derive(Clone, Copy, PartialEq, Eq, Structural, Debug)]
pub struct EntityFlags {
    pub bits: u32,
}

impl EntityFlags {
    /// Only the directory bit may be set.
    pub open spec fn spec_valid(self) -> bool {
        self.bits == 0 || self.bits == 1
    }

    pub open spec fn spec_is_directory(self) -> bool {
        self.bits == 1
    }

    /// No flags: a plain file.
    pub fn empty() -> (r: EntityFlags)
        ensures
            r.bits == 0,
    {
        EntityFlags { bits: 0 }
    }

    /// The directory flag.
    pub fn directory() -> (r: EntityFlags)
        ensures
            r.bits == 1,
    {
        EntityFlags { bits: 1 }
    }
}

/// The mathematical model of an entity record.
pub struct EntityView {
    pub name: Seq<u8>,
    pub size: u64,
    pub start_block: u64,
    pub flags: u32,
    pub vendor_data_size: u32,
}

impl EntityView {
    /// A record the filesystem will write: bounded name, known flags, and no
    /// vendor data.
    pub open spec fn wf(self) -> bool {
        &&& self.name.len() + 32 <= u32::MAX
        &&& self.flags == 0 || self.flags == 1
        &&& self.vendor_data_size == 0
    }

    pub open spec fn is_directory(self) -> bool {
        self.flags == 1
    }

    /// The value of the on-disk `header_size` field: the record length not
    /// counting that field itself.
    pub open spec fn spec_header_size(self) -> int {
        28 + self.name.len() + self.vendor_data_size
    }

    /// The full on-disk length of the record.
    pub open spec fn spec_fact_size(self) -> int {
        self.spec_header_size() + 4
    }

    /// The serialized record.
    pub open spec fn spec_encode(self) -> Seq<u8> {
        u32_le_bytes((28 + self.name.len()) as u32)
            + u32_le_bytes(self.name.len() as u32)
            + self.name
            + spec_u64_to_le_bytes(self.size)
            + spec_u64_to_le_bytes(self.start_block)
            + u32_le_bytes(self.flags)
            + u32_le_bytes(self.vendor_data_size)
    }
}

/// Whether a valid record starts at offset `i` of stream `s`: the header and
/// name length agree, the record lies within the stream, only known flag
/// bits are set, and the vendor data is empty.
pub open spec fn can_parse_at(s: Seq<u8>, i: int) -> bool {
    let hs = u32_of_le_bytes(s.subrange(i, i + 4)) as int;
    let nl = u32_of_le_bytes(s.subrange(i + 4, i + 8)) as int;
    &&& 0 <= i
    &&& i + 8 <= s.len()
    &&& hs == 28 + nl
    &&& hs + 4 <= u32::MAX
    &&& i + 4 + hs <= s.len()
    &&& u32_of_le_bytes(s.subrange(i + 24 + nl, i + 28 + nl)) <= 1
    &&& u32_of_le_bytes(s.subrange(i + 28 + nl, i + 32 + nl)) == 0
}

/// The record starting at offset `i` of stream `s`; meaningful when
/// `can_parse_at(s, i)`.
pub open spec fn parse_at(s: Seq<u8>, i: int) -> EntityView {
    let nl = u32_of_le_bytes(s.subrange(i + 4, i + 8)) as int;
    EntityView {
        name: s.subrange(i + 8, i + 8 + nl),
        size: spec_u64_from_le_bytes(s.subrange(i + 8 + nl, i + 16 + nl)),
        start_block: spec_u64_from_le_bytes(s.subrange(i + 16 + nl, i + 24 + nl)),
        flags: u32_of_le_bytes(s.subrange(i + 24 + nl, i + 28 + nl)),
        vendor_data_size: 0,
    }
}

/// A window of `s` equals `enc`: then sub-windows agree with `enc`'s.
pub proof fn lemma_window_subrange(s: Seq<u8>, i: int, enc: Seq<u8>, a: int, b: int)
    requires
        0 <= i,
        0 <= a <= b <= enc.len(),
        i + enc.len() <= s.len(),
        s.subrange(i, i + enc.len()) == enc,
    ensures
        s.subrange(i + a, i + b) == enc.subrange(a, b),
{
    assert forall|k: int| 0 <= k < b - a implies s.subrange(i + a, i + b)[k]
        == enc.subrange(a, b)[k] by {
        assert(s.subrange(i, i + enc.len() as int)[a + k] == enc[a + k]);
    }
    assert(s.subrange(i + a, i + b) =~= enc.subrange(a, b));
}

/// A well-formed record round-trips: its encoding parses back to itself.
pub proof fn lemma_encode_parses(e: EntityView, s: Seq<u8>, i: int)
    requires
        e.wf(),
        0 <= i,
        i + e.spec_fact_size() <= s.len(),
        s.subrange(i, i + e.spec_fact_size()) == e.spec_encode(),
    ensures
        can_parse_at(s, i),
        parse_at(s, i) == e,
        u32_of_le_bytes(s.subrange(i, i + 4)) == 28 + e.name.len(),
{
    lemma_auto_spec_u64_to_from_le_bytes();
    lemma_u32_le_round((28 + e.name.len()) as u32);
    lemma_u32_le_round(e.name.len() as u32);
    lemma_u32_le_round(e.flags);
    lemma_u32_le_round(e.vendor_data_size);
    let nl = e.name.len() as int;
    let enc = e.spec_encode();
    assert(enc.len() == 32 + nl);
    assert(enc.subrange(0, 4) =~= u32_le_bytes((28 + e.name.len()) as u32));
    assert(enc.subrange(4, 8) =~= u32_le_bytes(e.name.len() as u32));
    assert(enc.subrange(8, 8 + nl) =~= e.name);
    assert(enc.subrange(8 + nl, 16 + nl) =~= spec_u64_to_le_bytes(e.size));
    assert(enc.subrange(16 + nl, 24 + nl) =~= spec_u64_to_le_bytes(e.start_block));
    assert(enc.subrange(24 + nl, 28 + nl) =~= u32_le_bytes(e.flags));
    assert(enc.subrange(28 + nl, 32 + nl) =~= u32_le_bytes(e.vendor_data_size));
    lemma_window_subrange(s, i, enc, 0, 4);
    lemma_window_subrange(s, i, enc, 4, 8);
    lemma_window_subrange(s, i, enc, 8, 8 + nl);
    lemma_window_subrange(s, i, enc, 8 + nl, 16 + nl);
    lemma_window_subrange(s, i, enc, 16 + nl, 24 + nl);
    lemma_window_subrange(s, i, enc, 24 + nl, 28 + nl);
    lemma_window_subrange(s, i, enc, 28 + nl, 32 + nl);
    assert(u32_of_le_bytes(s.subrange(i + 4, i + 8)) == e.name.len());
    assert(can_parse_at(s, i));
    assert(parse_at(s, i) == e);
}

/// An entity: a file or a directory, as described by its record in the
/// parent directory.
#[derive(Clone, Debug)]
pub struct Entity {
    /// The name bytes (UTF-8 by convention; kept as raw bytes here).
    pub name: Vec<u8>,
    /// File length in bytes; directory records use 0.
    pub size: u64,
    /// First block of the object's chain.
    pub start_block: BlockAddress,
    pub flags: EntityFlags,
    /// Length of the opaque trailing blob; always 0 in this version.
    pub vendor_data_size: u32,
}

impl View for Entity {
    type V = EntityView;

    open spec fn view(&self) -> EntityView {
        EntityView {
            name: self.name@,
            size: self.size,
            start_block: self.start_block,
            flags: self.flags.bits,
            vendor_data_size: self.vendor_data_size,
        }
    }
}

impl Entity {
    /// A new file record.
    pub fn file(name: Vec<u8>, size: u64, start_block: BlockAddress) -> (r: Entity)
        requires
            name@.len() + 32 <= u32::MAX,
        ensures
            r@ == (EntityView {
                name: name@,
                size: size,
                start_block: start_block,
                flags: 0,
                vendor_data_size: 0,
            }),
            r@.wf(),
    {
        Entity { name, size, start_block, flags: EntityFlags::empty(), vendor_data_size: 0 }
    }

    /// A new directory record.
    pub fn directory(name: Vec<u8>, size: u64, start_block: BlockAddress) -> (r: Entity)
        requires
            name@.len() + 32 <= u32::MAX,
        ensures
            r@ == (EntityView {
                name: name@,
                size: size,
                start_block: start_block,
                flags: 1,
                vendor_data_size: 0,
            }),
            r@.wf(),
    {
        Entity { name, size, start_block, flags: EntityFlags::directory(), vendor_data_size: 0 }
    }

    /// The on-disk `header_size` field: the record length not counting the
    /// field itself.
    pub fn header_size(&self) -> (r: u32)
        requires
            self@.wf(),
        ensures
            r == self@.spec_header_size(),
    {
        28 + self.name.len() as u32 + self.vendor_data_size
    }

    /// The full on-disk length of the record.
    pub fn fact_size(&self) -> (r: u32)
        requires
            self@.wf(),
        ensures
            r == self@.spec_fact_size(),
    {
        self.header_size() + 4
    }

    /// Serialize the record.
    pub fn as_raw(&self) -> (r: Vec<u8>)
        requires
            self@.wf(),
        ensures
            r@ == self@.spec_encode(),
            r@.len() == self@.spec_fact_size(),
    {
        let mut out: Vec<u8> = Vec::new();
        let mut part = write_u32_le(28 + self.name.len() as u32);
        out.append(&mut part);
        let mut part = write_u32_le(self.name.len() as u32);
        out.append(&mut part);
        out.extend_from_slice(self.name.as_slice());
        proof {
            assert(out@ =~= u32_le_bytes((28 + self@.name.len()) as u32)
                + u32_le_bytes(self@.name.len() as u32) + self@.name);
        }
        let mut part = u64_to_le_bytes(self.size);
        out.append(&mut part);
        let mut part = u64_to_le_bytes(self.start_block);
        out.append(&mut part);
        let mut part = write_u32_le(self.flags.bits);
        out.append(&mut part);
        let mut part = write_u32_le(self.vendor_data_size);
        out.append(&mut part);
        proof {
            assert(out@ =~= self@.spec_encode());
        }
        out
    }

    /// Parse the record at the start of `data`. Returns `Corrupt` when the
    /// header is inconsistent, the record overruns `data`, unknown flag bits
    /// are set, or vendor data is present.
    pub fn from_raw(data: &[u8]) -> (r: Result<Entity, NoctFSError>)
        ensures
            r is Ok <==> can_parse_at(data@, 0),
            r is Ok ==> r->Ok_0@ == parse_at(data@, 0) && r->Ok_0@.wf(),
            r is Err ==> r->Err_0 == NoctFSError::Corrupt,
    {
        if data.len() < 8 {
            return Err(NoctFSError::Corrupt);
        }
        let hs = read_u32_le(data, 0);
        let nl = read_u32_le(data, 4);
        if hs < 28 || nl != hs - 28 || hs > u32::MAX - 4 {
            return Err(NoctFSError::Corrupt);
        }
        if (data.len() as u64) < 4 + hs as u64 {
            return Err(NoctFSError::Corrupt);
        }
        let nlu = nl as usize;
        let flags_bits = read_u32_le(data, 24 + nlu);
        if flags_bits > 1 {
            return Err(NoctFSError::Corrupt);
        }
        let vds = read_u32_le(data, 28 + nlu);
        if vds != 0 {
            return Err(NoctFSError::Corrupt);
        }
        let name = slice_to_vec(slice_subrange(data, 8, 8 + nlu));
        let size = u64_from_le_bytes(slice_subrange(data, 8 + nlu, 16 + nlu));
        let start_block = u64_from_le_bytes(slice_subrange(data, 16 + nlu, 24 + nlu));
        Ok(Entity {
            name,
            size,
            start_block,
            flags: EntityFlags { bits: flags_bits },
            vendor_data_size: 0,
        })
    }

    /// Whether the record describes a plain file.
    pub fn is_file(&self) -> (r: bool)
        ensures
            r == !self@.is_directory(),
    {
        self.flags.bits != 1
    }

    /// Whether the record describes a directory.
    pub fn is_directory(&self) -> (r: bool)
        ensures
            r == self@.is_directory(),
    {
        self.flags.bits == 1
    }
}

} // verus!
