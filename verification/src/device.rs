//! The device port: a byte-addressable storage abstraction.
//!
//! The filesystem does all its I/O through this trait. Reads are total
//! (positions beyond the end read as zero) and writes are run to completion,
//! growing the image when they land past its end, the way a seekable file
//! grows. An in-memory implementation, `MemDevice`, is provided and verified.

use vstd::prelude::*;

use crate::bytes::{byte_at, read_seq, splice_bytes};

verus! {

/// A byte-addressable storage device.
pub trait Device: Sized {
    /// The current content of the device as a byte sequence.
    spec fn bytes(&self) -> Seq<u8>;

    /// The current size of the device in bytes.
    fn size(&self) -> (r: u64)
        ensures
            r == self.bytes().len(),
    ;

    /// Read `len` bytes starting at `off`; bytes beyond the end read as zero.
    fn read_at(&self, off: u64, len: usize) -> (r: Vec<u8>)
        ensures
            r@ == read_seq(self.bytes(), off as int, len as nat),
    ;

    /// Write `data` at `off`, growing the device if the write lands past its
    /// end; the gap, if any, is zero-filled.
    fn write_at(&mut self, off: u64, data: &[u8])
        requires
            off + data@.len() <= usize::MAX,
        ensures
            final(self).bytes() == splice_bytes(old(self).bytes(), off as int, data@),
    ;
}

/// An in-memory device: a growable byte image.
pub struct MemDevice {
    data: Vec<u8>,
}

impl MemDevice {
    /// Wrap an existing image.
    pub fn new(data: Vec<u8>) -> (r: MemDevice)
        ensures
            r.bytes() == data@,
    {
        MemDevice { data }
    }

    /// A zero-filled image of `len` bytes.
    pub fn zeroed(len: usize) -> (r: MemDevice)
        ensures
            r.bytes() == Seq::new(len as nat, |i: int| 0u8),
    {
        let mut data: Vec<u8> = Vec::new();
        let mut i: usize = 0;
        while i < len
            invariant
                i <= len,
                data@ == Seq::new(i as nat, |j: int| 0u8),
            decreases len - i,
        {
            data.push(0u8);
            i = i + 1;
            proof {
                assert(data@ =~= Seq::new(i as nat, |j: int| 0u8));
            }
        }
        MemDevice { data }
    }

    /// Borrow the raw image.
    pub fn data(&self) -> (r: &Vec<u8>)
        ensures
            r@ == self.bytes(),
    {
        &self.data
    }

    /// Take the raw image back out.
    pub fn into_inner(self) -> (r: Vec<u8>)
        ensures
            r@ == self.bytes(),
    {
        self.data
    }
}

impl Device for MemDevice {
    closed spec fn bytes(&self) -> Seq<u8> {
        self.data@
    }

    fn size(&self) -> (r: u64)
    {
        self.data.len() as u64
    }

    fn read_at(&self, off: u64, len: usize) -> (r: Vec<u8>)
    {
        let mut out: Vec<u8> = Vec::new();
        let n = self.data.len();
        let mut i: usize = 0;
        while i < len
            invariant
                i <= len,
                n == self.data.len(),
                out@ == read_seq(self.data@, off as int, i as nat),
            decreases len - i,
        {
            let b: u8 = if off < n as u64 && (i as u64) < n as u64 - off {
                self.data[(off + i as u64) as usize]
            } else {
                0u8
            };
            out.push(b);
            i = i + 1;
            proof {
                assert(out@ =~= read_seq(self.data@, off as int, i as nat));
            }
        }
        out
    }

    fn write_at(&mut self, off: u64, data: &[u8])
    {
        let target: usize = (off as usize) + data.len();
        while self.data.len() < target
            invariant
                off + data@.len() <= usize::MAX,
                target == off + data@.len(),
                self.data@.len() <= target || self.data@.len() == old(self).bytes().len(),
                self.data@ == old(self).bytes()
                    + Seq::new((self.data@.len() - old(self).bytes().len()) as nat,
                        |j: int| 0u8),
            decreases target - self.data.len(),
        {
            self.data.push(0u8);
            proof {
                assert(self.data@ =~= old(self).bytes()
                    + Seq::new((self.data@.len() - old(self).bytes().len()) as nat,
                        |j: int| 0u8));
            }
        }
        let ghost padded = self.data@;
        let mut i: usize = 0;
        while i < data.len()
            invariant
                i <= data@.len(),
                off + data@.len() <= usize::MAX,
                off + data@.len() <= self.data@.len(),
                self.data@.len() == padded.len(),
                forall|j: int| 0 <= j < self.data@.len() && !(off <= j < off + i)
                    ==> self.data@[j] == padded[j],
                forall|j: int| off <= j < off + i ==> self.data@[j] == data@[j - off],
            decreases data@.len() - i,
        {
            self.data.set((off as usize) + i, data[i]);
            i = i + 1;
        }
        proof {
            let orig = old(self).bytes();
            let sp = splice_bytes(orig, off as int, data@);
            assert(padded.len() == if orig.len() >= off + data@.len() {
                orig.len() as int
            } else {
                off + data@.len()
            });
            assert(self.data@.len() == sp.len());
            assert forall|j: int| 0 <= j < sp.len() implies self.data@[j] == sp[j] by {
                if off <= j < off + data@.len() {
                    assert(self.data@[j] == data@[j - off]);
                } else {
                    assert(self.data@[j] == padded[j]);
                    if j < orig.len() {
                        assert(padded[j] == orig[j]);
                    } else {
                        assert(padded[j] == 0);
                    }
                }
            }
            assert(self.data@ =~= splice_bytes(old(self).bytes(), off as int, data@));
        }
    }
}

} // verus!
