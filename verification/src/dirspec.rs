//! The model of a directory's byte stream.
//!
//! A directory's content is a run of serialized entity records, one after
//! the other, ended by a four-byte zero header. `parse_stream` walks that
//! run: it returns the records it could read, the offset where it stopped
//! (the terminator, or the first malformed record), and whether the walk
//! ended cleanly.

use vstd::prelude::*;
use vstd::bytes::{lemma_auto_spec_u64_to_from_le_bytes, spec_u64_to_le_bytes};

use crate::bytes::{u32_le_bytes, u32_of_le_bytes, lemma_u32_le_inverse, lemma_u32_le_zero};
use crate::entity::{EntityView, can_parse_at, parse_at, lemma_encode_parses};

verus! {

/// The outcome of walking a directory stream.
pub struct ParsedDir {
    /// The records read, in stream order.
    pub recs: Seq<EntityView>,
    /// Where the walk stopped: the terminator when `ok`, the malformed
    /// record otherwise.
    pub end: int,
    /// Whether the walk ended at a terminator (or exactly at the stream's
    /// end) rather than at a malformed record.
    pub ok: bool,
}

/// Walk the records of stream `s` from offset `i`.
pub open spec fn parse_stream(s: Seq<u8>, i: int) -> ParsedDir
    decreases s.len() - i when 0 <= i <= s.len()
{
    if i + 4 > s.len() {
        ParsedDir { recs: Seq::empty(), end: i, ok: i == s.len() }
    } else {
        let hs = u32_of_le_bytes(s.subrange(i, i + 4)) as int;
        if hs == 0 {
            ParsedDir { recs: Seq::empty(), end: i, ok: true }
        } else if can_parse_at(s, i) {
            let rest = parse_stream(s, i + 4 + hs);
            ParsedDir { recs: seq![parse_at(s, i)] + rest.recs, end: rest.end, ok: rest.ok }
        } else {
            ParsedDir { recs: Seq::empty(), end: i, ok: false }
        }
    }
}

/// A directory stream the filesystem maintains: its records parse cleanly,
/// a terminator follows them with room to spare, and everything after the
/// terminator is zero, so a record written over the terminator is followed
/// by a new terminator for free.
pub open spec fn dir_stream_wf(s: Seq<u8>) -> bool {
    let p = parse_stream(s, 0);
    &&& p.ok
    &&& p.end + 4 <= s.len()
    &&& forall|j: int| p.end <= j < s.len() ==> s[j] == 0
}

/// The bytes consumed by the first `m` records starting at offset `i`.
pub open spec fn consumed_by(s: Seq<u8>, i: int, m: int) -> int
    decreases m when m >= 0
{
    if m <= 0 {
        0
    } else {
        let hs = u32_of_le_bytes(s.subrange(i, i + 4)) as int;
        4 + hs + consumed_by(s, i + 4 + hs, m - 1)
    }
}

/// A stream with at least one record ahead starts with a readable record,
/// and the walk past it yields the remaining records.
pub proof fn lemma_parse_suffix_step(s: Seq<u8>, i: int)
    requires
        0 <= i <= s.len(),
        parse_stream(s, i).recs.len() > 0,
    ensures
        can_parse_at(s, i),
        u32_of_le_bytes(s.subrange(i, i + 4)) != 0,
        parse_stream(s, i).recs[0] == parse_at(s, i),
        parse_stream(s, i + 4 + u32_of_le_bytes(s.subrange(i, i + 4)) as int)
            == (ParsedDir {
                recs: parse_stream(s, i).recs.skip(1),
                end: parse_stream(s, i).end,
                ok: parse_stream(s, i).ok,
            }),
        consumed_by(s, i, parse_stream(s, i).recs.len() as int)
            == 4 + u32_of_le_bytes(s.subrange(i, i + 4))
                + consumed_by(s, i + 4 + u32_of_le_bytes(s.subrange(i, i + 4)) as int,
                    parse_stream(s, i).recs.len() - 1),
{
    let p = parse_stream(s, i);
    let hs = u32_of_le_bytes(s.subrange(i, i + 4)) as int;
    let rest = parse_stream(s, i + 4 + hs);
    assert(p.recs == seq![parse_at(s, i)] + rest.recs);
    assert(rest.recs =~= p.recs.skip(1));
    assert(rest == ParsedDir { recs: p.recs.skip(1), end: p.end, ok: p.ok });
}

/// The first index whose record equals `e`, scanning from `i`.
pub open spec fn first_match(recs: Seq<EntityView>, e: EntityView, i: int) -> Option<int>
    decreases recs.len() - i when 0 <= i <= recs.len()
{
    if i >= recs.len() {
        None
    } else if recs[i] == e {
        Some(i)
    } else {
        first_match(recs, e, i + 1)
    }
}

/// What a successful `first_match` points at: the record there equals `e`.
pub proof fn lemma_first_match_found(recs: Seq<EntityView>, e: EntityView, i: int)
    requires
        0 <= i <= recs.len(),
    ensures
        match first_match(recs, e, i) {
            Some(m) => i <= m < recs.len() && recs[m] == e,
            None => true,
        },
    decreases recs.len() - i,
{
    if i < recs.len() && recs[i] != e {
        lemma_first_match_found(recs, e, i + 1);
    }
}

/// The first index whose record starts at block `blk`, scanning from `i`.
pub open spec fn first_block_match(recs: Seq<EntityView>, blk: u64, i: int) -> Option<int>
    decreases recs.len() - i when 0 <= i <= recs.len()
{
    if i >= recs.len() {
        None
    } else if recs[i].start_block == blk {
        Some(i)
    } else {
        first_block_match(recs, blk, i + 1)
    }
}

/// A walk consumes exactly the bytes up to where it stopped.
pub proof fn lemma_consumed_reaches_end(s: Seq<u8>, i: int)
    requires
        0 <= i <= s.len(),
    ensures
        i + consumed_by(s, i, parse_stream(s, i).recs.len() as int)
            == parse_stream(s, i).end,
        i <= parse_stream(s, i).end <= s.len(),
    decreases s.len() - i,
{
    let p = parse_stream(s, i);
    if i + 4 > s.len() {
    } else {
        let hs = u32_of_le_bytes(s.subrange(i, i + 4)) as int;
        if hs == 0 {
        } else if can_parse_at(s, i) {
            lemma_consumed_reaches_end(s, i + 4 + hs);
            lemma_parse_suffix_step(s, i);
        }
    }
}

/// One more record consumes its own bytes on top of those before it.
pub proof fn lemma_consumed_snoc(s: Seq<u8>, i: int, m: int)
    requires
        m >= 0,
    ensures
        ({
            let n = consumed_by(s, i, m);
            consumed_by(s, i, m + 1)
                == n + 4 + u32_of_le_bytes(s.subrange(i + n, i + n + 4))
        }),
    decreases m,
{
    let hs = u32_of_le_bytes(s.subrange(i, i + 4)) as int;
    if m == 0 {
        assert(consumed_by(s, i, 0) == 0);
        assert(consumed_by(s, i, 1) == 4 + hs + consumed_by(s, i + 4 + hs, 0));
        assert(consumed_by(s, i + 4 + hs, 0) == 0);
    } else {
        lemma_consumed_snoc(s, i + 4 + hs, m - 1);
        let n2 = consumed_by(s, i + 4 + hs, m - 1);
        assert(consumed_by(s, i, m) == 4 + hs + n2);
        assert(consumed_by(s, i, m + 1) == 4 + hs + consumed_by(s, i + 4 + hs, m));
        assert(i + 4 + hs + n2 == i + consumed_by(s, i, m));
    }
}

/// Two streams that agree on a record's bytes hold the same record.
pub proof fn lemma_record_agree(s1: Seq<u8>, i1: int, s2: Seq<u8>, i2: int)
    requires
        can_parse_at(s1, i1),
        0 <= i2,
        i2 + 4 + u32_of_le_bytes(s1.subrange(i1, i1 + 4)) <= s2.len(),
        forall|t: int| #![trigger s2[i2 + t]]
            0 <= t < 4 + u32_of_le_bytes(s1.subrange(i1, i1 + 4))
            ==> s2[i2 + t] == s1[i1 + t],
    ensures
        can_parse_at(s2, i2),
        parse_at(s2, i2) == parse_at(s1, i1),
        u32_of_le_bytes(s2.subrange(i2, i2 + 4))
            == u32_of_le_bytes(s1.subrange(i1, i1 + 4)),
{
    let hs = u32_of_le_bytes(s1.subrange(i1, i1 + 4)) as int;
    let nl = u32_of_le_bytes(s1.subrange(i1 + 4, i1 + 8)) as int;
    lemma_agree_window(s1, i1, s2, i2, 4 + hs, 0, 4);
    lemma_agree_window(s1, i1, s2, i2, 4 + hs, 4, 8);
    lemma_agree_window(s1, i1, s2, i2, 4 + hs, 8, 8 + nl);
    lemma_agree_window(s1, i1, s2, i2, 4 + hs, 8 + nl, 16 + nl);
    lemma_agree_window(s1, i1, s2, i2, 4 + hs, 16 + nl, 24 + nl);
    lemma_agree_window(s1, i1, s2, i2, 4 + hs, 24 + nl, 28 + nl);
    lemma_agree_window(s1, i1, s2, i2, 4 + hs, 28 + nl, 32 + nl);
}

/// Byte-for-byte agreement over a region carries each of its windows over.
proof fn lemma_agree_window(s1: Seq<u8>, i1: int, s2: Seq<u8>, i2: int, n: int, a: int, b: int)
    requires
        0 <= i1,
        0 <= i2,
        0 <= a <= b <= n,
        i1 + n <= s1.len(),
        i2 + n <= s2.len(),
        forall|t: int| #![trigger s2[i2 + t]] 0 <= t < n ==> s2[i2 + t] == s1[i1 + t],
    ensures
        s2.subrange(i2 + a, i2 + b) == s1.subrange(i1 + a, i1 + b),
{
    assert forall|t: int| #![trigger s2.subrange(i2 + a, i2 + b)[t]] 0 <= t < b - a
        implies s2.subrange(i2 + a, i2 + b)[t] == s1.subrange(i1 + a, i1 + b)[t] by {
        assert(s2[i2 + (a + t)] == s1[i1 + (a + t)]);
    }
    assert(s2.subrange(i2 + a, i2 + b) =~= s1.subrange(i1 + a, i1 + b));
}

/// Walking a stream whose first `m` records' bytes match another stream's
/// yields those records and then whatever follows them.
pub proof fn lemma_parse_join(s1: Seq<u8>, i1: int, s2: Seq<u8>, i2: int, m: int)
    requires
        0 <= i1 <= s1.len(),
        0 <= i2 <= s2.len(),
        0 <= m <= parse_stream(s1, i1).recs.len(),
        i2 + consumed_by(s1, i1, m) <= s2.len(),
        forall|t: int| #![trigger s2[i2 + t]]
            0 <= t < consumed_by(s1, i1, m) ==> s2[i2 + t] == s1[i1 + t],
    ensures
        ({
            let n = consumed_by(s1, i1, m);
            let q = parse_stream(s2, i2 + n);
            parse_stream(s2, i2) == (ParsedDir {
                recs: parse_stream(s1, i1).recs.take(m) + q.recs,
                end: q.end,
                ok: q.ok,
            })
        }),
    decreases m,
{
    let p1 = parse_stream(s1, i1);
    if m == 0 {
        let q = parse_stream(s2, i2);
        assert(p1.recs.take(0) + q.recs =~= q.recs);
        assert(parse_stream(s2, i2) == ParsedDir {
            recs: p1.recs.take(0) + q.recs,
            end: q.end,
            ok: q.ok,
        });
    } else {
        lemma_parse_suffix_step(s1, i1);
        let hs = u32_of_le_bytes(s1.subrange(i1, i1 + 4)) as int;
        let n = consumed_by(s1, i1, m);
        assert(n == 4 + hs + consumed_by(s1, i1 + 4 + hs, m - 1));
        assert(consumed_by(s1, i1 + 4 + hs, m - 1) >= 0) by {
            lemma_consumed_nonneg(s1, i1 + 4 + hs, m - 1);
        }
        lemma_record_agree(s1, i1, s2, i2);
        assert(u32_of_le_bytes(s2.subrange(i2, i2 + 4)) == hs);
        let p1rest = parse_stream(s1, i1 + 4 + hs);
        assert(p1rest.recs == p1.recs.skip(1));
        assert(m - 1 <= p1rest.recs.len());
        assert forall|t: int| #![trigger s2[i2 + 4 + hs + t]]
            0 <= t < consumed_by(s1, i1 + 4 + hs, m - 1)
            implies s2[i2 + 4 + hs + t] == s1[i1 + 4 + hs + t] by {
            assert(s2[i2 + (4 + hs + t)] == s1[i1 + (4 + hs + t)]);
        }
        lemma_parse_join(s1, i1 + 4 + hs, s2, i2 + 4 + hs, m - 1);
        let q = parse_stream(s2, i2 + n);
        let q2 = parse_stream(s2, i2 + 4 + hs);
        assert(q2 == ParsedDir {
            recs: p1rest.recs.take(m - 1) + q.recs,
            end: q.end,
            ok: q.ok,
        });
        assert(parse_stream(s2, i2) == ParsedDir {
            recs: seq![parse_at(s2, i2)] + q2.recs,
            end: q2.end,
            ok: q2.ok,
        });
        assert(seq![parse_at(s1, i1)] + (p1rest.recs.take(m - 1) + q.recs)
            =~= p1.recs.take(m) + q.recs);
    }
}

/// Bytes consumed by records never go backwards.
pub proof fn lemma_consumed_nonneg(s: Seq<u8>, i: int, m: int)
    requires
        m >= 0,
    ensures
        consumed_by(s, i, m) >= 0,
    decreases m,
{
    if m > 0 {
        let hs = u32_of_le_bytes(s.subrange(i, i + 4)) as int;
        lemma_consumed_nonneg(s, i + 4 + hs, m - 1);
    }
}

/// A walk stopped by four zero bytes stops cleanly right there.
pub proof fn lemma_zero_header(s: Seq<u8>, i: int)
    requires
        0 <= i,
        i + 4 <= s.len(),
        forall|j: int| i <= j < i + 4 ==> s[j] == 0,
    ensures
        parse_stream(s, i) == (ParsedDir { recs: Seq::<EntityView>::empty(), end: i, ok: true }),
{
    let w = s.subrange(i, i + 4);
    assert(w[0] == 0 && w[1] == 0 && w[2] == 0 && w[3] == 0);
    lemma_u32_le_zero(w);
}

/// A parsed record's bytes are exactly its re-encoding, and the record is
/// well formed.
pub proof fn lemma_parse_at_encodes(s: Seq<u8>, i: int)
    requires
        can_parse_at(s, i),
    ensures
        parse_at(s, i).wf(),
        parse_at(s, i).spec_fact_size()
            == 4 + u32_of_le_bytes(s.subrange(i, i + 4)),
        s.subrange(i, i + parse_at(s, i).spec_fact_size()) == parse_at(s, i).spec_encode(),
    decreases 0int,
{
    lemma_auto_spec_u64_to_from_le_bytes();
    let e = parse_at(s, i);
    let hs = u32_of_le_bytes(s.subrange(i, i + 4)) as int;
    let nl = u32_of_le_bytes(s.subrange(i + 4, i + 8)) as int;
    lemma_u32_le_inverse(s.subrange(i, i + 4));
    lemma_u32_le_inverse(s.subrange(i + 4, i + 8));
    lemma_u32_le_inverse(s.subrange(i + 24 + nl, i + 28 + nl));
    lemma_u32_le_inverse(s.subrange(i + 28 + nl, i + 32 + nl));
    assert(e.name.len() == nl);
    assert(e.wf());
    let enc = e.spec_encode();
    assert(u32_le_bytes((28 + e.name.len()) as u32) =~= s.subrange(i, i + 4));
    assert(u32_le_bytes(e.name.len() as u32) =~= s.subrange(i + 4, i + 8));
    assert(spec_u64_to_le_bytes(e.size) =~= s.subrange(i + 8 + nl, i + 16 + nl));
    assert(spec_u64_to_le_bytes(e.start_block) =~= s.subrange(i + 16 + nl, i + 24 + nl));
    assert(u32_le_bytes(e.flags) =~= s.subrange(i + 24 + nl, i + 28 + nl));
    assert(u32_le_bytes(e.vendor_data_size) =~= s.subrange(i + 28 + nl, i + 32 + nl));
    assert(s.subrange(i, i + e.spec_fact_size()) =~= enc);
}

/// Writing a well-formed record over the terminator of a well-formed stream
/// appends it to the directory: the zero bytes that followed the terminator
/// become the new terminator.
pub proof fn lemma_insert_record(s1: Seq<u8>, s2: Seq<u8>, e: EntityView)
    requires
        dir_stream_wf(s1),
        e.wf(),
        s2.len() == s1.len(),
        parse_stream(s1, 0).end + e.spec_fact_size() + 4 <= s1.len(),
        forall|t: int| #![trigger s2[t]] 0 <= t < parse_stream(s1, 0).end ==> s2[t] == s1[t],
        s2.subrange(parse_stream(s1, 0).end,
            parse_stream(s1, 0).end + e.spec_fact_size()) == e.spec_encode(),
        forall|t: int| #![trigger s2[t]]
            parse_stream(s1, 0).end + e.spec_fact_size() <= t < s2.len() ==> s2[t] == s1[t],
    ensures
        parse_stream(s2, 0) == (ParsedDir {
            recs: parse_stream(s1, 0).recs.push(e),
            end: parse_stream(s1, 0).end + e.spec_fact_size(),
            ok: true,
        }),
        dir_stream_wf(s2),
{
    let p1 = parse_stream(s1, 0);
    let end = p1.end;
    let fact = e.spec_fact_size();
    lemma_consumed_reaches_end(s1, 0);
    lemma_parse_join(s1, 0, s2, 0, p1.recs.len() as int);
    lemma_encode_parses(e, s2, end);
    let hs = u32_of_le_bytes(s2.subrange(end, end + 4)) as int;
    assert(hs == 28 + e.name.len());
    let rest = parse_stream(s2, end + 4 + hs);
    assert(end + 4 + hs == end + fact);
    assert forall|j: int| end + fact <= j < end + fact + 4 implies s2[j] == 0 by {
        assert(s2[j] == s1[j]);
    }
    lemma_zero_header(s2, end + fact);
    assert(parse_stream(s2, end) == ParsedDir {
        recs: seq![e] + rest.recs,
        end: rest.end,
        ok: rest.ok,
    });
    assert(p1.recs.take(p1.recs.len() as int) + (seq![e] + rest.recs)
        =~= p1.recs.push(e));
    assert forall|j: int| end + fact <= j < s2.len() implies s2[j] == 0 by {
        assert(s2[j] == s1[j]);
    }
}

/// Overwriting a record in place with one of the same size swaps it in the
/// directory's listing and changes nothing else.
pub proof fn lemma_replace_record(s1: Seq<u8>, s2: Seq<u8>, e: EntityView, m: int)
    requires
        dir_stream_wf(s1),
        e.wf(),
        0 <= m < parse_stream(s1, 0).recs.len(),
        e.spec_fact_size() == parse_stream(s1, 0).recs[m].spec_fact_size(),
        s2.len() == s1.len(),
        forall|t: int| #![trigger s2[t]] 0 <= t < consumed_by(s1, 0, m) ==> s2[t] == s1[t],
        s2.subrange(consumed_by(s1, 0, m),
            consumed_by(s1, 0, m) + e.spec_fact_size()) == e.spec_encode(),
        forall|t: int| #![trigger s2[t]]
            consumed_by(s1, 0, m) + e.spec_fact_size() <= t < s2.len() ==> s2[t] == s1[t],
    ensures
        parse_stream(s2, 0) == (ParsedDir {
            recs: parse_stream(s1, 0).recs.update(m, e),
            end: parse_stream(s1, 0).end,
            ok: true,
        }),
        dir_stream_wf(s2),
{
    let p1 = parse_stream(s1, 0);
    let end = p1.end;
    let off = consumed_by(s1, 0, m);
    let fact = e.spec_fact_size();
    lemma_consumed_reaches_end(s1, 0);
    lemma_consumed_prefix_bound(s1, 0, m);
    // The suffix of the old stream from the record being replaced.
    assert forall|t: int| #![trigger s1[0 + t]] 0 <= t < consumed_by(s1, 0, m)
        implies s1[0 + t] == s1[0 + t] by {}
    lemma_parse_join(s1, 0, s1, 0, m);
    let sfx = parse_stream(s1, off);
    assert(p1.recs.take(m) + sfx.recs == p1.recs);
    assert(sfx.recs =~= p1.recs.skip(m)) by {
        assert forall|k: int| 0 <= k < sfx.recs.len()
            implies sfx.recs[k] == p1.recs.skip(m)[k] by {
            assert((p1.recs.take(m) + sfx.recs)[m + k] == p1.recs[m + k]);
        }
    }
    assert(sfx.end == end && sfx.ok);
    lemma_parse_suffix_step(s1, off);
    let hs1 = u32_of_le_bytes(s1.subrange(off, off + 4)) as int;
    lemma_parse_at_encodes(s1, off);
    assert(parse_at(s1, off) == p1.recs[m]);
    assert(4 + hs1 == p1.recs[m].spec_fact_size());
    let rest1 = parse_stream(s1, off + fact);
    assert(rest1 == ParsedDir { recs: p1.recs.skip(m).skip(1), end: end, ok: true });
    lemma_consumed_reaches_end(s1, off + fact);
    // The new stream: same prefix, the new record, then the same suffix.
    lemma_parse_join(s1, 0, s2, 0, m);
    lemma_encode_parses(e, s2, off);
    let hs2 = u32_of_le_bytes(s2.subrange(off, off + 4)) as int;
    assert(hs2 == 28 + e.name.len());
    assert forall|t: int| #![trigger s2[off + fact + t]]
        0 <= t < consumed_by(s1, off + fact, rest1.recs.len() as int)
        implies s2[off + fact + t] == s1[off + fact + t] by {
        assert(off + fact + consumed_by(s1, off + fact, rest1.recs.len() as int) == end);
    }
    lemma_parse_join(s1, off + fact, s2, off + fact, rest1.recs.len() as int);
    assert forall|j: int| end <= j < end + 4 implies s2[j] == 0 by {
        assert(s2[j] == s1[j]);
    }
    lemma_zero_header(s2, end);
    let q2 = parse_stream(s2, off + fact);
    assert(q2 == ParsedDir {
        recs: rest1.recs.take(rest1.recs.len() as int) + Seq::<EntityView>::empty(),
        end: end,
        ok: true,
    });
    assert(q2.recs =~= p1.recs.skip(m).skip(1));
    assert(parse_stream(s2, off) == ParsedDir {
        recs: seq![e] + q2.recs,
        end: end,
        ok: true,
    });
    assert(p1.recs.take(m) + (seq![e] + q2.recs) =~= p1.recs.update(m, e));
    assert forall|j: int| end <= j < s2.len() implies s2[j] == 0 by {
        assert(s2[j] == s1[j]);
    }
}

/// The bytes consumed by a prefix of records stay within the stream.
pub proof fn lemma_consumed_prefix_bound(s: Seq<u8>, i: int, m: int)
    requires
        0 <= i <= s.len(),
        0 <= m <= parse_stream(s, i).recs.len(),
    ensures
        0 <= consumed_by(s, i, m),
        i + consumed_by(s, i, m) <= parse_stream(s, i).end,
        parse_stream(s, i + consumed_by(s, i, m)) == (ParsedDir {
            recs: parse_stream(s, i).recs.skip(m),
            end: parse_stream(s, i).end,
            ok: parse_stream(s, i).ok,
        }),
    decreases m,
{
    let p = parse_stream(s, i);
    lemma_consumed_reaches_end(s, i);
    if m == 0 {
        assert(p.recs.skip(0) =~= p.recs);
    } else {
        lemma_parse_suffix_step(s, i);
        let hs = u32_of_le_bytes(s.subrange(i, i + 4)) as int;
        lemma_consumed_prefix_bound(s, i + 4 + hs, m - 1);
        assert(parse_stream(s, i + 4 + hs).recs.skip(m - 1) =~= p.recs.skip(m));
        lemma_consumed_reaches_end(s, i + 4 + hs);
    }
}

/// Removing a record's bytes from the stream, closing the gap and zeroing
/// the vacated tail, removes exactly that record from the listing.
pub proof fn lemma_remove_record(s1: Seq<u8>, s2: Seq<u8>, m: int)
    requires
        dir_stream_wf(s1),
        0 <= m < parse_stream(s1, 0).recs.len(),
        s2.len() == s1.len(),
        forall|t: int| #![trigger s2[t]] 0 <= t < consumed_by(s1, 0, m) ==> s2[t] == s1[t],
        forall|t: int| #![trigger s2[t]] consumed_by(s1, 0, m) <= t
                < s1.len() - parse_stream(s1, 0).recs[m].spec_fact_size()
            ==> s2[t] == s1[t + parse_stream(s1, 0).recs[m].spec_fact_size()],
        forall|t: int| #![trigger s2[t]]
            s1.len() - parse_stream(s1, 0).recs[m].spec_fact_size() <= t < s1.len()
            ==> s2[t] == 0,
    ensures
        parse_stream(s2, 0) == (ParsedDir {
            recs: parse_stream(s1, 0).recs.remove(m),
            end: parse_stream(s1, 0).end - parse_stream(s1, 0).recs[m].spec_fact_size(),
            ok: true,
        }),
        dir_stream_wf(s2),
{
    let p1 = parse_stream(s1, 0);
    let end = p1.end;
    let off = consumed_by(s1, 0, m);
    let fact = p1.recs[m].spec_fact_size();
    lemma_consumed_reaches_end(s1, 0);
    lemma_consumed_prefix_bound(s1, 0, m);
    let sfx = parse_stream(s1, off);
    assert(sfx == ParsedDir { recs: p1.recs.skip(m), end: end, ok: true });
    lemma_parse_suffix_step(s1, off);
    let hs1 = u32_of_le_bytes(s1.subrange(off, off + 4)) as int;
    lemma_parse_at_encodes(s1, off);
    assert(parse_at(s1, off) == p1.recs.skip(m)[0]);
    assert(p1.recs.skip(m)[0] == p1.recs[m]);
    assert(4 + hs1 == fact);
    assert(fact >= 32) by {
        assert(p1.recs[m].spec_fact_size() == 32 + p1.recs[m].name.len());
    }
    let rest1 = parse_stream(s1, off + fact);
    assert(rest1 == ParsedDir { recs: p1.recs.skip(m).skip(1), end: end, ok: true });
    lemma_consumed_reaches_end(s1, off + fact);
    // Prefix records carry over unchanged.
    lemma_parse_join(s1, 0, s2, 0, m);
    // The shifted suffix parses as the records after the removed one.
    assert forall|t: int| #![trigger s2[off + t]]
        0 <= t < consumed_by(s1, off + fact, rest1.recs.len() as int)
        implies s2[off + t] == s1[off + fact + t] by {
        assert(off + fact + consumed_by(s1, off + fact, rest1.recs.len() as int) == end);
        assert(off + t < s1.len() - fact);
    }
    lemma_parse_join(s1, off + fact, s2, off, rest1.recs.len() as int);
    let n2 = consumed_by(s1, off + fact, rest1.recs.len() as int);
    assert(off + fact + n2 == end);
    assert forall|j: int| end - fact <= j < end - fact + 4 implies s2[j] == 0 by {
        if j < s1.len() - fact {
            assert(s2[j] == s1[j + fact]);
            assert(j + fact >= end);
        }
    }
    lemma_zero_header(s2, end - fact);
    let q2 = parse_stream(s2, off);
    assert(q2 == ParsedDir {
        recs: rest1.recs.take(rest1.recs.len() as int) + Seq::<EntityView>::empty(),
        end: end - fact,
        ok: true,
    });
    assert(q2.recs =~= p1.recs.skip(m).skip(1));
    assert(p1.recs.take(m) + q2.recs =~= p1.recs.remove(m));
    assert(parse_stream(s2, 0) == ParsedDir {
        recs: p1.recs.remove(m),
        end: end - fact,
        ok: true,
    });
    assert forall|j: int| end - fact <= j < s2.len() implies s2[j] == 0 by {
        if j < s1.len() - fact {
            assert(s2[j] == s1[j + fact]);
            assert(j + fact >= end);
        }
    }
}

/// Every record a clean walk reads is well formed.
pub proof fn lemma_parse_recs_wf(s: Seq<u8>, i: int)
    requires
        0 <= i <= s.len(),
    ensures
        forall|k: int| 0 <= k < parse_stream(s, i).recs.len()
            ==> (#[trigger] parse_stream(s, i).recs[k]).wf(),
    decreases s.len() - i,
{
    if i + 4 > s.len() {
    } else {
        let hs = u32_of_le_bytes(s.subrange(i, i + 4)) as int;
        if hs == 0 {
        } else if can_parse_at(s, i) {
            lemma_parse_at_encodes(s, i);
            lemma_parse_recs_wf(s, i + 4 + hs);
            let p = parse_stream(s, i);
            let rest = parse_stream(s, i + 4 + hs);
            assert forall|k: int| 0 <= k < p.recs.len()
                implies (#[trigger] p.recs[k]).wf() by {
                if k > 0 {
                    assert(p.recs[k] == rest.recs[k - 1]);
                }
            }
        }
    }
}

} // verus!
