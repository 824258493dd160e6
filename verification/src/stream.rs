//! An in-memory, seekable, lockable byte stream: the store's backing.
//!
//! On a real system the backing is an opened file in a protected directory;
//! the unverified binary around this library moves bytes between such a file
//! and this buffer, and maps the advisory lock onto the OS lock primitive.

use vstd::prelude::*;
use vstd::slice::slice_index_get;
use vstd::slice::slice_subrange;
use vstd::slice::slice_to_vec;

verus! {

/// Truncates or extends the underlying data.
pub trait SetLength {
    /// After this call the underlying data is either truncated to `new_len`
    /// bytes, or extended with zero bytes up to `new_len`.
    fn set_len(&mut self, new_len: usize);
}

/// What the byte store holds after its length is set to `n`.
pub open spec fn spec_set_len(d: Seq<u8>, n: int) -> Seq<u8> {
    if n <= d.len() {
        d.take(n)
    } else {
        d + Seq::new((n - d.len()) as nat, |i: int| 0u8)
    }
}

/// What the byte store holds after `b` is written at position `at`:
/// existing bytes are overwritten, and the store grows as needed.
pub open spec fn spec_write_at(d: Seq<u8>, at: int, b: Seq<u8>) -> Seq<u8> {
    if at + b.len() <= d.len() {
        d.take(at) + b + d.skip(at + b.len())
    } else {
        d.take(at) + b
    }
}

/// A growable byte buffer with a read/write position and an advisory lock
/// flag, mirroring a seekable file handle.
pub struct MemoryStream {
    data: Vec<u8>,
    pos: usize,
    locked: bool,
}

impl MemoryStream {
    /// The bytes held.
    pub closed spec fn contents(self) -> Seq<u8> {
        self.data@
    }

    /// The current read/write position.
    pub closed spec fn position(self) -> int {
        self.pos as int
    }

    /// Whether the advisory lock is held.
    pub closed spec fn is_locked(self) -> bool {
        self.locked
    }

    /// Open a stream over the given bytes, positioned at the start.
    pub fn new(data: Vec<u8>) -> (r: MemoryStream)
        ensures
            r.contents() == data@,
            r.position() == 0,
            !r.is_locked(),
    {
        MemoryStream { data, pos: 0, locked: false }
    }

    /// Give the bytes back.
    pub fn into_inner(self) -> (r: Vec<u8>)
        ensures
            r@ == self.contents(),
    {
        self.data
    }

    /// Borrow the bytes held.
    pub fn get_ref(&self) -> (r: &Vec<u8>)
        ensures
            r@ == self.contents(),
    {
        &self.data
    }

    /// How many bytes are held.
    pub fn len(&self) -> (r: usize)
        ensures
            r as int == self.contents().len(),
    {
        self.data.len()
    }

    /// Where the next read or write lands.
    pub fn stream_position(&self) -> (r: usize)
        ensures
            r as int == self.position(),
    {
        self.pos
    }

    /// Move to an absolute position within the held bytes.
    pub fn seek_to(&mut self, pos: usize)
        requires
            pos as int <= old(self).contents().len(),
        ensures
            final(self).contents() == old(self).contents(),
            final(self).position() == pos as int,
            final(self).is_locked() == old(self).is_locked(),
    {
        self.pos = pos;
    }

    /// Move to the end of the held bytes.
    pub fn seek_to_end(&mut self)
        ensures
            final(self).contents() == old(self).contents(),
            final(self).position() == old(self).contents().len(),
            final(self).is_locked() == old(self).is_locked(),
    {
        self.pos = self.data.len();
    }

    /// Move back to the start.
    pub fn rewind(&mut self)
        ensures
            final(self).contents() == old(self).contents(),
            final(self).position() == 0,
            final(self).is_locked() == old(self).is_locked(),
    {
        self.pos = 0;
    }

    /// Read exactly `n` bytes from the current position, or report that not
    /// that many remain, moving nothing.
    pub fn read_bytes(&mut self, n: usize) -> (r: Option<Vec<u8>>)
        ensures
            final(self).contents() == old(self).contents(),
            final(self).is_locked() == old(self).is_locked(),
            if old(self).position() + n <= old(self).contents().len() {
                &&& r matches Some(v) && v@ == old(self).contents().subrange(
                    old(self).position(),
                    old(self).position() + n,
                )
                &&& final(self).position() == old(self).position() + n
            } else {
                r is None && final(self).position() == old(self).position()
            },
    {
        if n <= self.data.len() && self.pos <= self.data.len() - n {
            let v = slice_to_vec(slice_subrange(self.data.as_slice(), self.pos, self.pos + n));
            self.pos = self.pos + n;
            Some(v)
        } else {
            None
        }
    }

    /// Write all of `bytes` at the current position, overwriting what is
    /// there and growing the store past its end.
    pub fn write_bytes(&mut self, bytes: &[u8])
        requires
            old(self).position() <= old(self).contents().len(),
            old(self).position() + bytes@.len() <= usize::MAX,
        ensures
            final(self).contents() == spec_write_at(
                old(self).contents(),
                old(self).position(),
                bytes@,
            ),
            final(self).position() == old(self).position() + bytes@.len(),
            final(self).is_locked() == old(self).is_locked(),
    {
        let ghost d0 = self.data@;
        let ghost p0 = self.pos as int;
        let mut i: usize = 0;
        while i < bytes.len()
            invariant
                i <= bytes@.len(),
                p0 + bytes@.len() <= usize::MAX,
                self.pos as int == p0 + i,
                self.pos <= self.data.len(),
                0 <= p0 <= d0.len(),
                self.data@ == spec_write_at(d0, p0, bytes@.take(i as int)),
                self.locked == old(self).locked,
            decreases bytes@.len() - i,
        {
            let b = *slice_index_get(bytes, i);
            if self.pos < self.data.len() {
                self.data[self.pos] = b;
            } else {
                self.data.push(b);
            }
            proof {
                assert(bytes@.take(i + 1) =~= bytes@.take(i as int).push(bytes@[i as int]));
                assert(self.data@ =~= spec_write_at(d0, p0, bytes@.take(i + 1)));
            }
            self.pos = self.pos + 1;
            i = i + 1;
        }
        assert(bytes@.take(bytes@.len() as int) =~= bytes@);
    }

    /// Truncate the held bytes to `new_len`, or extend them with zeros.
    /// The position is left where it was, even when it now lies past the end.
    pub fn set_len(&mut self, new_len: usize)
        ensures
            final(self).contents() == spec_set_len(old(self).contents(), new_len as int),
            final(self).position() == old(self).position(),
            final(self).is_locked() == old(self).is_locked(),
    {
        if new_len <= self.data.len() {
            self.data.truncate(new_len);
        } else {
            self.data.resize(new_len, 0u8);
            assert(self.data@ =~= spec_set_len(old(self).data@, new_len as int));
        }
    }

    /// Take the advisory lock.  In this in-memory backing nothing contends
    /// for it; a file backing blocks here until the lock is free.
    pub fn lock_exclusive(&mut self)
        ensures
            final(self).contents() == old(self).contents(),
            final(self).position() == old(self).position(),
            final(self).is_locked(),
    {
        self.locked = true;
    }

    /// Release the advisory lock.
    pub fn unlock(&mut self)
        ensures
            final(self).contents() == old(self).contents(),
            final(self).position() == old(self).position(),
            !final(self).is_locked(),
    {
        self.locked = false;
    }
}

impl SetLength for MemoryStream {
    fn set_len(&mut self, new_len: usize) {
        MemoryStream::set_len(self, new_len)
    }
}

} // verus!
