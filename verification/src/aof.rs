//! The memory-mapped append-only file, modelled over its mapped byte
//! region: safe in-place append while capacity remains, explicit growth,
//! and a refusal to shrink below what was already written. The unverified
//! shell shares one `Aof` between the event loop and the background
//! thread under a try-lock, answering `WouldBlock` instead of waiting;
//! every mutation it forwards lands in the verified operations here.

use vstd::prelude::*;

use crate::codec::EOF;
use crate::stream::StreamError;

verus! {

/// The growable, mapped append-only region backing the mutable tail of a
/// segment: a fixed-capacity byte image and the current write offset.
pub struct Aof {
    data: Vec<u8>,
    offset: usize,
}

impl Aof {
    /// Bytes the mapping can hold.
    pub closed spec fn capacity(&self) -> int {
        self.data@.len() as int
    }

    /// The current write offset.
    pub closed spec fn offset_model(&self) -> int {
        self.offset as int
    }

    /// The bytes written so far.
    pub closed spec fn contents(&self) -> Seq<u8> {
        self.data@.take(self.offset as int)
    }

    /// The whole mapped image.
    pub closed spec fn image(&self) -> Seq<u8> {
        self.data@
    }

    /// The write offset never passes the mapped capacity.
    pub closed spec fn wf(&self) -> bool {
        self.offset <= self.data@.len()
    }

    /// Open an append-only file over the bytes it already holds, asking
    /// for `size` mapped bytes. An existing file larger than the request
    /// is refused — growth never silently truncates — otherwise the file
    /// is extended with zeroes to `size` and writing resumes at its old
    /// end.
    pub fn new(existing: Vec<u8>, size: u64) -> (r: Result<Aof, StreamError>)
        requires
            size <= usize::MAX,
        ensures
            existing@.len() > size ==> r == Err::<Aof, _>(StreamError::BadInput),
            existing@.len() <= size ==> (r matches Ok(a) && a.wf() && a.capacity() == size
                && a.offset_model() == existing@.len() && a.contents() == existing@),
    {
        if existing.len() as u64 > size {
            return Err(StreamError::BadInput);
        }
        let off = existing.len();
        let mut data = existing;
        data.resize(size as usize, 0);
        let a = Aof { data, offset: off };
        proof {
            assert(a.contents() =~= a.data@.take(off as int));
        }
        Ok(a)
    }

    /// Mapped capacity in bytes.
    pub fn len(&self) -> (r: usize)
        ensures
            r == self.capacity(),
    {
        self.data.len()
    }

    /// Current write offset.
    pub fn offset(&self) -> (r: usize)
        ensures
            r == self.offset_model(),
    {
        self.offset
    }

    /// Append `buf` at the write offset if it fits in the remaining
    /// capacity; otherwise fail fast with `Overflow` and change nothing,
    /// so the caller can grow the file or roll the segment over. On
    /// success the bytes land at the returned offset and the terminator
    /// marker is rewritten right after them when a byte of room remains.
    pub fn try_append(&mut self, buf: &Vec<u8>) -> (r: Result<u64, StreamError>)
        requires
            old(self).wf(),
        ensures
            final(self).wf(),
            final(self).capacity() == old(self).capacity(),
            r == Err::<u64, _>(StreamError::Overflow) <==> old(self).offset_model() + buf@.len()
                > old(self).capacity(),
            r is Err ==> *final(self) == *old(self) && r == Err::<u64, _>(StreamError::Overflow),
            r matches Ok(at) ==> (at == old(self).offset_model()
                && final(self).offset_model() == old(self).offset_model() + buf@.len()
                && final(self).contents() == old(self).contents() + buf@
                && (final(self).offset_model() < final(self).capacity()
                    ==> final(self).image()[final(self).offset_model()] == EOF)),
    {
        let cap = self.data.len();
        let len = buf.len();
        if len > cap - self.offset {
            return Err(StreamError::Overflow);
        }
        let ghost before = *self;
        let at = self.offset;
        let mut k: usize = 0;
        while k < len
            invariant
                at + len <= cap,
                cap == self.data@.len(),
                at == self.offset,
                len == buf@.len(),
                k <= len,
                self.offset == before.offset,
                self.data@.len() == before.data@.len(),
                forall|j: int| 0 <= j < at ==> self.data@[j] == before.data@[j],
                forall|j: int| 0 <= j < k ==> self.data@[at + j] == buf@[j],
            decreases len - k,
        {
            self.data[at + k] = buf[k];
            k = k + 1;
        }
        self.offset = at + len;
        if self.offset < cap {
            let here = self.offset;
            self.data[here] = EOF;
        }
        proof {
            assert(self.contents() =~= before.contents() + buf@);
        }
        Ok(at as u64)
    }

    /// Resize the mapping to `new_size` bytes. Shrinking below the bytes
    /// already written is refused; on success the written prefix is kept
    /// intact and new capacity arrives zeroed. The durable ordering —
    /// flush what is mapped before the file is resized and re-mapped — is
    /// the unverified mapping layer's obligation.
    pub fn truncate(&mut self, new_size: u64) -> (r: Result<(), StreamError>)
        requires
            old(self).wf(),
            new_size <= usize::MAX,
        ensures
            final(self).wf(),
            r == Err::<(), _>(StreamError::BadInput) <==> new_size < old(self).offset_model(),
            r is Err ==> *final(self) == *old(self),
            r is Ok ==> final(self).capacity() == new_size && final(self).offset_model() == old(
                self,
            ).offset_model() && final(self).contents() == old(self).contents(),
    {
        if new_size < self.offset as u64 {
            return Err(StreamError::BadInput);
        }
        let ghost before = *self;
        self.data.resize(new_size as usize, 0);
        proof {
            assert(self.contents() =~= before.contents());
        }
        Ok(())
    }
}

} // verus!
