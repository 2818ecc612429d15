//! A single-pass reader over a datagram body.

use crate::bytes::{from_be16, read_u16_be};
use vstd::prelude::*;

verus! {

/// Reads bytes front to back; a read past the end yields nothing and
/// leaves the reader where it was.
pub struct PacketReader {
    buffer: Vec<u8>,
    cursor: usize,
}

impl PacketReader {
    pub closed spec fn bytes(&self) -> Seq<u8> {
        self.buffer@
    }

    pub closed spec fn pos(&self) -> nat {
        self.cursor as nat
    }

    /// The bytes not read yet.
    pub open spec fn rest(&self) -> Seq<u8> {
        self.bytes().subrange(self.pos() as int, self.bytes().len() as int)
    }

    pub open spec fn wf(&self) -> bool {
        self.pos() <= self.bytes().len()
    }

    /// A reader at the start of `buffer`.
    pub fn new(buffer: Vec<u8>) -> (r: PacketReader)
        ensures
            r.wf(),
            r.bytes() == buffer@,
            r.pos() == 0,
    {
        PacketReader { buffer, cursor: 0 }
    }

    /// Whether unread bytes remain.
    pub fn has_more(&self) -> (r: bool)
        requires
            self.wf(),
        ensures
            r == (self.pos() < self.bytes().len()),
    {
        self.cursor < self.buffer.len()
    }

    /// Number of bytes not read yet.
    pub fn remaining(&self) -> (r: usize)
        requires
            self.wf(),
        ensures
            r == self.bytes().len() - self.pos(),
    {
        self.buffer.len() - self.cursor
    }

    /// The next byte.
    pub fn read_u8(&mut self) -> (r: Option<u8>)
        requires
            old(self).wf(),
        ensures
            final(self).wf(),
            final(self).bytes() == old(self).bytes(),
            old(self).pos() < old(self).bytes().len() ==> r == Some(old(self).bytes()[old(self).pos() as int])
                && final(self).pos() == old(self).pos() + 1,
            old(self).pos() >= old(self).bytes().len() ==> r is None && final(self).pos() == old(self).pos(),
    {
        if self.cursor < self.buffer.len() {
            let b = self.buffer[self.cursor];
            self.cursor = self.cursor + 1;
            Some(b)
        } else {
            None
        }
    }

    /// The next two bytes, as a big-endian `u16`.
    pub fn read_u16_be(&mut self) -> (r: Option<u16>)
        requires
            old(self).wf(),
        ensures
            final(self).wf(),
            final(self).bytes() == old(self).bytes(),
            old(self).pos() + 2 <= old(self).bytes().len() ==> r == Some(
                from_be16(old(self).bytes()[old(self).pos() as int], old(self).bytes()[old(self).pos() + 1int]),
            ) && final(self).pos() == old(self).pos() + 2,
            old(self).pos() + 2 > old(self).bytes().len() ==> r is None && final(self).pos() == old(self).pos(),
    {
        if self.buffer.len() >= 2 && self.cursor <= self.buffer.len() - 2 {
            let v = read_u16_be(self.buffer.as_slice(), self.cursor);
            self.cursor = self.cursor + 2;
            Some(v)
        } else {
            None
        }
    }

    /// The next `n` bytes.
    pub fn read_bytes(&mut self, n: usize) -> (r: Option<Vec<u8>>)
        requires
            old(self).wf(),
        ensures
            final(self).wf(),
            final(self).bytes() == old(self).bytes(),
            old(self).pos() + n <= old(self).bytes().len() ==> r is Some && r->0@ == old(self).bytes().subrange(
                old(self).pos() as int,
                old(self).pos() + n as int,
            ) && final(self).pos() == old(self).pos() + n as int,
            old(self).pos() + n > old(self).bytes().len() ==> r is None && final(self).pos() == old(self).pos(),
    {
        if n > self.buffer.len() - self.cursor {
            return None;
        }
        let mut out: Vec<u8> = Vec::new();
        let mut i: usize = 0;
        while i < n
            invariant
                i <= n,
                self.cursor + n <= self.buffer@.len(),
                self.buffer@.len() <= usize::MAX,
                out@ == self.buffer@.subrange(self.cursor as int, self.cursor + i),
            decreases n - i,
        {
            out.push(self.buffer[self.cursor + i]);
            i = i + 1;
        }
        self.cursor = self.cursor + n;
        Some(out)
    }
}

} // verus!
