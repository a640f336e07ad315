//! Reading directories: walking a directory's record stream, listing it,
//! and looking entities up.

use vstd::prelude::*;
use vstd::slice::slice_subrange;

use crate::bytes::{read_u32_le, u32_of_le_bytes};
use crate::chainio::chain_bytes;
use crate::chainspec::{has_chain, stored_chain};
use crate::device::Device;
use crate::dirspec::{
    ParsedDir, parse_stream, consumed_by, first_match, first_block_match,
    lemma_parse_suffix_step, lemma_consumed_snoc,
};
use crate::entity::{Entity, EntityView, can_parse_at, parse_at};
use crate::fs::NoctFS;
use crate::{BlockAddress, NoctFSError};

verus! {

/// Whether a record begins at offset `i` of `s` does not depend on the bytes
/// before `i`.
pub proof fn lemma_can_parse_suffix(s: Seq<u8>, i: int)
    requires
        0 <= i <= s.len(),
    ensures
        can_parse_at(s.skip(i), 0) == can_parse_at(s, i),
        can_parse_at(s, i) ==> parse_at(s.skip(i), 0) == parse_at(s, i),
{
    let t = s.skip(i);
    if i + 8 <= s.len() {
        assert(t.subrange(0, 4) =~= s.subrange(i, i + 4));
        assert(t.subrange(4, 8) =~= s.subrange(i + 4, i + 8));
        let hs = u32_of_le_bytes(s.subrange(i, i + 4)) as int;
        let nl = u32_of_le_bytes(s.subrange(i + 4, i + 8)) as int;
        if hs == 28 + nl && i + 4 + hs <= s.len() {
            assert(t.subrange(8, 8 + nl) =~= s.subrange(i + 8, i + 8 + nl));
            assert(t.subrange(8 + nl, 16 + nl) =~= s.subrange(i + 8 + nl, i + 16 + nl));
            assert(t.subrange(16 + nl, 24 + nl) =~= s.subrange(i + 16 + nl, i + 24 + nl));
            assert(t.subrange(24 + nl, 28 + nl) =~= s.subrange(i + 24 + nl, i + 28 + nl));
            assert(t.subrange(28 + nl, 32 + nl) =~= s.subrange(i + 28 + nl, i + 32 + nl));
        }
    }
}

/// The outcome of walking a directory's bytes.
pub struct DirScan {
    /// The decoded records, in stream order.
    pub entities: Vec<Entity>,
    /// The byte offset of each record.
    pub offsets: Vec<usize>,
    /// Where the walk stopped.
    pub end: usize,
    /// Whether the walk stopped at a terminator rather than a bad record.
    pub ok: bool,
}

/// Walk the record stream held in `data`.
pub fn scan_records(data: &Vec<u8>) -> (r: DirScan)
    ensures
        ({
            let p = parse_stream(data@, 0);
            &&& r.ok == p.ok
            &&& r.end == p.end
            &&& r.entities@.len() == p.recs.len()
            &&& r.offsets@.len() == p.recs.len()
            &&& forall|m: int| 0 <= m < p.recs.len()
                    ==> (#[trigger] r.entities@[m])@ == p.recs[m]
            &&& forall|m: int| 0 <= m < p.recs.len()
                    ==> (#[trigger] r.offsets@[m]) as int == consumed_by(data@, 0, m)
                        && can_parse_at(data@, r.offsets@[m] as int)
                        && parse_at(data@, r.offsets@[m] as int) == p.recs[m]
        }),
{
    let ghost s = data@;
    let ghost p = parse_stream(s, 0);
    let mut entities: Vec<Entity> = Vec::new();
    let mut offsets: Vec<usize> = Vec::new();
    let mut index: usize = 0;
    proof {
        assert(p.recs.skip(0) =~= p.recs);
    }
    loop
        invariant
            s == data@,
            p == parse_stream(s, 0),
            entities@.len() == offsets@.len(),
            entities@.len() <= p.recs.len(),
            index <= data@.len(),
            index as int == consumed_by(s, 0, entities@.len() as int),
            parse_stream(s, index as int) == (ParsedDir {
                recs: p.recs.skip(entities@.len() as int),
                end: p.end,
                ok: p.ok,
            }),
            forall|m: int| 0 <= m < entities@.len()
                ==> (#[trigger] entities@[m])@ == p.recs[m],
            forall|m: int| 0 <= m < entities@.len()
                ==> (#[trigger] offsets@[m]) as int == consumed_by(s, 0, m)
                    && can_parse_at(s, offsets@[m] as int)
                    && parse_at(s, offsets@[m] as int) == p.recs[m],
        decreases s.len() - index,
    {
        let ghost m = entities@.len() as int;
        if data.len() < 4 || index > data.len() - 4 {
            proof {
                assert(p.recs.skip(m) =~= Seq::<EntityView>::empty());
                assert(p.recs.skip(m).len() == 0);
                assert(m == p.recs.len());
            }
            return DirScan { entities, offsets, end: index, ok: index == data.len() };
        }
        let hs = read_u32_le(data.as_slice(), index);
        if hs == 0 {
            proof {
                assert(p.recs.skip(m).len() == 0);
                assert(m == p.recs.len());
            }
            return DirScan { entities, offsets, end: index, ok: true };
        }
        let tail = slice_subrange(data.as_slice(), index, data.len());
        proof {
            assert(tail@ =~= s.skip(index as int));
            lemma_can_parse_suffix(s, index as int);
        }
        match Entity::from_raw(tail) {
            Err(_) => {
                proof {
                    assert(!can_parse_at(s, index as int));
                    assert(p.recs.skip(m).len() == 0);
                    assert(m == p.recs.len());
                }
                return DirScan { entities, offsets, end: index, ok: false };
            },
            Ok(ent) => {
                proof {
                    assert(can_parse_at(s, index as int));
                    assert(ent@ == parse_at(s, index as int));
                    lemma_parse_suffix_step(s, index as int);
                    assert(p.recs.skip(m).len() > 0);
                    assert(p.recs.skip(m)[0] == parse_at(s, index as int));
                    assert(p.recs[m] == parse_at(s, index as int));
                    lemma_consumed_snoc(s, 0, m);
                    assert(p.recs.skip(m).skip(1) =~= p.recs.skip(m + 1));
                }
                entities.push(ent);
                offsets.push(index);
                index = index + 4 + hs as usize;
            },
        }
    }
}

impl<D: Device> NoctFS<D> {
    /// List the entities recorded in the directory whose chain starts at
    /// `directory_block`. A malformed record stream is reported as
    /// `Corrupt`.
    pub fn list_directory(&self, directory_block: BlockAddress)
        -> (r: Result<Vec<Entity>, NoctFSError>)
        requires
            self.wf(),
            has_chain(self.dev(), self.bootsector, directory_block),
        ensures
            ({
                let s = chain_bytes(self.dev(), self.bootsector,
                    stored_chain(self.dev(), self.bootsector, directory_block));
                let p = parse_stream(s, 0);
                &&& (r is Ok <==> p.ok)
                &&& (r is Ok ==> r->Ok_0@.len() == p.recs.len()
                        && forall|m: int| 0 <= m < p.recs.len()
                            ==> (#[trigger] r->Ok_0@[m])@ == p.recs[m])
                &&& (r is Err ==> r->Err_0 == NoctFSError::Corrupt)
            }),
    {
        let data = self.read_chain_data_vec(directory_block);
        let scan = scan_records(&data);
        if scan.ok {
            Ok(scan.entities)
        } else {
            Err(NoctFSError::Corrupt)
        }
    }

    /// The byte offset, inside the directory's stream, of the first record
    /// whose serialized form equals `entity`'s.
    pub fn get_entity_offset(&self, directory_block: BlockAddress, entity: &Entity)
        -> (r: Option<usize>)
        requires
            self.wf(),
            has_chain(self.dev(), self.bootsector, directory_block),
            entity@.wf(),
        ensures
            ({
                let s = chain_bytes(self.dev(), self.bootsector,
                    stored_chain(self.dev(), self.bootsector, directory_block));
                let p = parse_stream(s, 0);
                match first_match(p.recs, entity@, 0) {
                    Some(m) => r == Some(consumed_by(s, 0, m) as usize)
                        && consumed_by(s, 0, m) <= usize::MAX,
                    None => r is None,
                }
            }),
    {
        let data = self.read_chain_data_vec(directory_block);
        let ghost s = data@;
        let ghost p = parse_stream(s, 0);
        proof {
            assert(s == chain_bytes(self.dev(), self.bootsector,
                stored_chain(self.dev(), self.bootsector, directory_block)));
        }
        let scan = scan_records(&data);
        let mut m: usize = 0;
        while m < scan.entities.len()
            invariant
                s == data@,
                p == parse_stream(s, 0),
                s == chain_bytes(self.dev(), self.bootsector,
                    stored_chain(self.dev(), self.bootsector, directory_block)),
                scan.entities@.len() == p.recs.len(),
                scan.offsets@.len() == p.recs.len(),
                m <= p.recs.len(),
                forall|k: int| 0 <= k < p.recs.len()
                    ==> (#[trigger] scan.entities@[k])@ == p.recs[k],
                forall|k: int| 0 <= k < p.recs.len()
                    ==> (#[trigger] scan.offsets@[k]) as int == consumed_by(s, 0, k),
                first_match(p.recs, entity@, 0) == first_match(p.recs, entity@, m as int),
            decreases p.recs.len() - m,
        {
            if entity_views_equal(&scan.entities[m], entity) {
                proof {
                    assert(p.recs[m as int] == entity@);
                    assert(first_match(p.recs, entity@, m as int) == Some(m as int));
                }
                return Some(scan.offsets[m]);
            }
            proof {
                assert(p.recs[m as int] != entity@);
                assert(first_match(p.recs, entity@, m as int)
                    == first_match(p.recs, entity@, m + 1));
            }
            m = m + 1;
        }
        proof {
            assert(first_match(p.recs, entity@, m as int) is None);
        }
        None
    }

    /// Look up the entity of the directory at `directory_block` whose chain
    /// starts at `entity_block`. `NotFound` when no record matches;
    /// `Corrupt` when the stream is malformed before a match is found.
    pub fn get_entity_by_parent_and_block(
        &self, directory_block: BlockAddress, entity_block: BlockAddress,
    ) -> (r: Result<Entity, NoctFSError>)
        requires
            self.wf(),
            has_chain(self.dev(), self.bootsector, directory_block),
        ensures
            ({
                let s = chain_bytes(self.dev(), self.bootsector,
                    stored_chain(self.dev(), self.bootsector, directory_block));
                let p = parse_stream(s, 0);
                match first_block_match(p.recs, entity_block, 0) {
                    Some(m) => r is Ok && r->Ok_0@ == p.recs[m],
                    None => r is Err && r->Err_0 == (if p.ok {
                        NoctFSError::NotFound
                    } else {
                        NoctFSError::Corrupt
                    }),
                }
            }),
    {
        let data = self.read_chain_data_vec(directory_block);
        let ghost s = data@;
        let ghost p = parse_stream(s, 0);
        proof {
            assert(s == chain_bytes(self.dev(), self.bootsector,
                stored_chain(self.dev(), self.bootsector, directory_block)));
        }
        let mut scan = scan_records(&data);
        let mut m: usize = 0;
        let n = scan.entities.len();
        while m < n
            invariant
                s == data@,
                p == parse_stream(s, 0),
                s == chain_bytes(self.dev(), self.bootsector,
                    stored_chain(self.dev(), self.bootsector, directory_block)),
                scan.ok == p.ok,
                scan.entities@.len() == p.recs.len(),
                n == p.recs.len(),
                m <= p.recs.len(),
                forall|k: int| 0 <= k < p.recs.len()
                    ==> (#[trigger] scan.entities@[k])@ == p.recs[k],
                first_block_match(p.recs, entity_block, 0)
                    == first_block_match(p.recs, entity_block, m as int),
            decreases p.recs.len() - m,
        {
            if scan.entities[m].start_block == entity_block {
                proof {
                    assert(p.recs[m as int].start_block == entity_block);
                    assert(first_block_match(p.recs, entity_block, m as int)
                        == Some(m as int));
                }
                let found = scan.entities.remove(m);
                return Ok(found);
            }
            proof {
                assert(p.recs[m as int].start_block != entity_block);
                assert(first_block_match(p.recs, entity_block, m as int)
                    == first_block_match(p.recs, entity_block, m + 1));
            }
            m = m + 1;
        }
        proof {
            assert(first_block_match(p.recs, entity_block, m as int) is None);
        }
        if scan.ok {
            Err(NoctFSError::NotFound)
        } else {
            Err(NoctFSError::Corrupt)
        }
    }
}

/// Whether two entities have the same model, field by field.
pub fn entity_views_equal(a: &Entity, b: &Entity) -> (r: bool)
    ensures
        r == (a@ == b@),
{
    if a.size != b.size || a.start_block != b.start_block || a.flags.bits != b.flags.bits
        || a.vendor_data_size != b.vendor_data_size || a.name.len() != b.name.len() {
        proof {
            assert(a@ != b@);
        }
        return false;
    }
    let mut i: usize = 0;
    while i < a.name.len()
        invariant
            i <= a.name@.len(),
            a.name@.len() == b.name@.len(),
            a@.size == b@.size,
            a@.start_block == b@.start_block,
            a@.flags == b@.flags,
            a@.vendor_data_size == b@.vendor_data_size,
            forall|j: int| 0 <= j < i ==> a.name@[j] == b.name@[j],
        decreases a.name@.len() - i,
    {
        if a.name[i] != b.name[i] {
            proof {
                assert(a@.name[i as int] != b@.name[i as int]);
            }
            return false;
        }
        i = i + 1;
    }
    proof {
        assert(a@.name =~= b@.name);
    }
    true
}

} // verus!
