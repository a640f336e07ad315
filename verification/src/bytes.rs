//! The byte-level model of a device image.
//!
//! A device is modelled as a `Seq<u8>`; every read and write is phrased over
//! `byte_at`, which is total: bytes beyond the current end of the image read
//! as zero, and a write past the end grows the image, zero-filling the gap.
//! This matches a seekable file, which is what the filesystem sits on.

use vstd::prelude::*;

verus! {

/// The byte at address `addr` of a device image: zero beyond the end.
pub open spec fn byte_at(dev: Seq<u8>, addr: int) -> u8 {
    if 0 <= addr < dev.len() {
        dev[addr]
    } else {
        0
    }
}

/// `len` bytes of the image starting at `off`.
pub open spec fn read_seq(dev: Seq<u8>, off: int, len: nat) -> Seq<u8> {
    Seq::new(len, |i: int| byte_at(dev, off + i))
}

/// The image after writing `data` at `off`, growing it if needed; the gap
/// between the old end and `off` reads as zero either way.
pub open spec fn splice_bytes(dev: Seq<u8>, off: int, data: Seq<u8>) -> Seq<u8> {
    let new_len = if dev.len() >= off + data.len() {
        dev.len() as int
    } else {
        off + data.len()
    };
    Seq::new(new_len as nat, |i: int|
        if off <= i < off + data.len() {
            data[i - off]
        } else {
            byte_at(dev, i)
        })
}

/// Copy `src` into `dst` at offset `off`, in place.
pub fn copy_into(dst: &mut Vec<u8>, off: usize, src: &[u8])
    requires
        off + src@.len() <= old(dst)@.len(),
    ensures
        final(dst)@.len() == old(dst)@.len(),
        final(dst)@.subrange(off as int, off as int + src@.len() as int) == src@,
        forall|t: int| #![trigger final(dst)@[t]]
            0 <= t < old(dst)@.len() && !(off <= t < off + src@.len())
            ==> final(dst)@[t] == old(dst)@[t],
{
    let dlen: usize = dst.len();
    proof {
        assert(dst@.len() == dlen);
    }
    let mut i: usize = 0;
    while i < src.len()
        invariant
            i <= src@.len(),
            off + src@.len() <= dst@.len(),
            dst@.len() <= usize::MAX,
            dst@.len() == old(dst)@.len(),
            forall|t: int| #![trigger dst@[t]] off <= t < off + i ==> dst@[t] == src@[t - off],
            forall|t: int| #![trigger dst@[t]]
                0 <= t < dst@.len() && !(off <= t < off + i) ==> dst@[t] == old(dst)@[t],
        decreases src@.len() - i,
    {
        dst.set(off + i, src[i]);
        i = i + 1;
    }
    proof {
        assert(dst@.subrange(off as int, off as int + src@.len() as int) =~= src@);
    }
}

/// The little-endian bytes of a 32-bit word.
pub open spec fn u32_le_bytes(x: u32) -> Seq<u8> {
    seq![
        (x & 0xff) as u8,
        ((x >> 8) & 0xff) as u8,
        ((x >> 16) & 0xff) as u8,
        ((x >> 24) & 0xff) as u8,
    ]
}

/// The 32-bit word held by four little-endian bytes.
pub open spec fn u32_of_le_bytes(s: Seq<u8>) -> u32
    recommends
        s.len() == 4,
{
    (s[0] as u32) | (s[1] as u32) << 8 | (s[2] as u32) << 16 | (s[3] as u32) << 24
}

/// Encoding then decoding a word gives it back.
pub proof fn lemma_u32_le_round(x: u32)
    ensures
        u32_of_le_bytes(u32_le_bytes(x)) == x,
{
    assert(((x & 0xff) as u8 as u32) | (((x >> 8) & 0xff) as u8 as u32) << 8
        | (((x >> 16) & 0xff) as u8 as u32) << 16 | (((x >> 24) & 0xff) as u8 as u32) << 24
        == x) by (bit_vector);
}

/// Decoding then encoding four bytes gives them back.
pub proof fn lemma_u32_le_inverse(s: Seq<u8>)
    requires
        s.len() == 4,
    ensures
        u32_le_bytes(u32_of_le_bytes(s)) == s,
{
    let x = u32_of_le_bytes(s);
    let s0 = s[0];
    let s1 = s[1];
    let s2 = s[2];
    let s3 = s[3];
    assert((s0 as u32 | (s1 as u32) << 8 | (s2 as u32) << 16 | (s3 as u32) << 24) & 0xff
            == s0 as u32
        && ((s0 as u32 | (s1 as u32) << 8 | (s2 as u32) << 16 | (s3 as u32) << 24) >> 8) & 0xff
            == s1 as u32
        && ((s0 as u32 | (s1 as u32) << 8 | (s2 as u32) << 16 | (s3 as u32) << 24) >> 16) & 0xff
            == s2 as u32
        && ((s0 as u32 | (s1 as u32) << 8 | (s2 as u32) << 16 | (s3 as u32) << 24) >> 24) & 0xff
            == s3 as u32) by (bit_vector);
    assert(u32_le_bytes(x) =~= s);
}

/// The word is zero exactly when all four bytes are.
pub proof fn lemma_u32_le_zero(s: Seq<u8>)
    requires
        s.len() == 4,
    ensures
        u32_of_le_bytes(s) == 0 <==> (s[0] == 0 && s[1] == 0 && s[2] == 0 && s[3] == 0),
{
    let s0 = s[0];
    let s1 = s[1];
    let s2 = s[2];
    let s3 = s[3];
    assert((s0 as u32 | (s1 as u32) << 8 | (s2 as u32) << 16 | (s3 as u32) << 24) == 0
        <==> (s0 == 0 && s1 == 0 && s2 == 0 && s3 == 0)) by (bit_vector);
}

/// Read the little-endian 32-bit word at `off`.
pub fn read_u32_le(data: &[u8], off: usize) -> (r: u32)
    requires
        off + 4 <= data@.len(),
    ensures
        r == u32_of_le_bytes(data@.subrange(off as int, off as int + 4)),
{
    let r = (data[off] as u32) | (data[off + 1] as u32) << 8 | (data[off + 2] as u32) << 16
        | (data[off + 3] as u32) << 24;
    proof {
        let w = data@.subrange(off as int, off as int + 4);
        assert(w[0] == data@[off as int] && w[1] == data@[off as int + 1]
            && w[2] == data@[off as int + 2] && w[3] == data@[off as int + 3]);
    }
    r
}

/// The little-endian bytes of a 32-bit word, as a buffer.
pub fn write_u32_le(x: u32) -> (r: Vec<u8>)
    ensures
        r@ == u32_le_bytes(x),
{
    let mut out: Vec<u8> = Vec::new();
    out.push((x & 0xff) as u8);
    out.push(((x >> 8) & 0xff) as u8);
    out.push(((x >> 16) & 0xff) as u8);
    out.push(((x >> 24) & 0xff) as u8);
    proof {
        assert(out@ =~= u32_le_bytes(x));
    }
    out
}

/// A zero-filled buffer of `len` bytes.
pub fn zero_vec(len: usize) -> (r: Vec<u8>)
    ensures
        r@ == Seq::new(len as nat, |i: int| 0u8),
{
    let mut data: Vec<u8> = Vec::new();
    let mut i: usize = 0;
    while i < len
        invariant
            i <= len,
            data@ == Seq::new(i as nat, |j: int| 0u8),
        decreases len - i,
    {
        data.push(0u8);
        i = i + 1;
        proof {
            assert(data@ =~= Seq::new(i as nat, |j: int| 0u8));
        }
    }
    data
}

/// A splice changes exactly the written window, seen through `byte_at`.
pub proof fn lemma_splice_byte_at(dev: Seq<u8>, off: int, data: Seq<u8>)
    requires
        0 <= off,
    ensures
        forall|i: int| off <= i < off + data.len()
            ==> byte_at(#[trigger] splice_bytes(dev, off, data), i) == data[i - off],
        forall|i: int| !(off <= i < off + data.len())
            ==> byte_at(#[trigger] splice_bytes(dev, off, data), i) == byte_at(dev, i),
{
}

} // verus!
