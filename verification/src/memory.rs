//! A stream held in memory.

use vstd::prelude::*;
use crate::stream::{ByteSource, IoFault, PatchTarget, overlaid, unread};

verus! {

/// A stream whose bytes live in a vector.
///
/// It never reports a fault on reads, seeks or in-place writes. A write that
/// would make the stream longer than memory can address is refused.
pub struct MemStream {
    /// The bytes of the stream.
    pub data: Vec<u8>,
    /// Offset of the next byte to be read or written.
    pub pos: u64,
    /// Most bytes a single read delivers; zero lifts the limit.
    pub chunk: usize,
}

impl MemStream {
    /// A stream over `data` with the cursor at its start.
    pub fn new(data: Vec<u8>) -> (s: MemStream)
        ensures
            s.data == data,
            s.pos == 0,
            s.chunk == 0,
    {
        MemStream { data, pos: 0, chunk: 0 }
    }

    /// The number of bytes that one read delivers when there is room for
    /// `room` bytes and `left` bytes are unread: as many as fit, but no more
    /// than `chunk` where that is not zero.
    pub open spec fn portion(&self, room: nat, left: nat) -> usize {
        let fitting = if room < left {
            room
        } else {
            left
        };
        if self.chunk != 0 && self.chunk < fitting {
            self.chunk
        } else {
            fitting as usize
        }
    }

    /// A stream over `data` whose reads deliver at most `chunk` bytes each.
    pub fn with_chunk(data: Vec<u8>, chunk: usize) -> (s: MemStream)
        ensures
            s.data == data,
            s.pos == 0,
            s.chunk == chunk,
    {
        MemStream { data, pos: 0, chunk }
    }
}

impl ByteSource for MemStream {
    open spec fn content(&self) -> Seq<u8> {
        self.data@
    }

    open spec fn cursor(&self) -> nat {
        self.pos as nat
    }

    open spec fn reliable(&self) -> bool {
        true
    }

    fn read_into(&mut self, buf: &mut Vec<u8>, from: usize) -> (r: Result<usize, IoFault>)
        ensures
            final(self).chunk == old(self).chunk,
            r == Ok::<usize, IoFault>(
                old(self).portion(
                    (old(buf).len() - from) as nat,
                    unread(old(self).data@, old(self).pos as nat).len(),
                ),
            ),
    {
        let len = self.data.len();
        if self.pos >= len as u64 {
            assert(buf@ =~= overlaid(buf@, from as nat, Seq::<u8>::empty()));
            return Ok(0);
        }
        let start = self.pos as usize;
        let room = buf.len() - from;
        let left = len - start;
        let mut want = if room < left { room } else { left };
        if self.chunk != 0 && self.chunk < want {
            want = self.chunk;
        }
        let ghost pending = unread(self.data@, self.pos as nat);
        let mut done: usize = 0;
        while done < want
            invariant
                done <= want,
                want <= buf.len() - from,
                want <= len - start,
                len == self.data.len(),
                start == self.pos,
                self.data == old(self).data,
                self.pos == old(self).pos,
                self.chunk == old(self).chunk,
                buf.len() == old(buf).len(),
                pending == unread(self.data@, self.pos as nat),
                buf@ == overlaid(old(buf)@, from as nat, pending.take(done as int)),
            decreases want - done,
        {
            let byte = self.data[start + done];
            buf.set(from + done, byte);
            proof {
                assert(buf@ =~= overlaid(old(buf)@, from as nat, pending.take(done + 1)));
            }
            done = done + 1;
        }
        self.pos = self.pos + want as u64;
        Ok(want)
    }
}

impl PatchTarget for MemStream {
    fn position(&mut self) -> (r: Result<u64, IoFault>)
        ensures
            *final(self) == *old(self),
    {
        Ok(self.pos)
    }

    fn seek_to(&mut self, pos: u64) -> (r: Result<(), IoFault>)
        ensures
            r is Ok,
            final(self).chunk == old(self).chunk,
    {
        self.pos = pos;
        Ok(())
    }

    fn write(&mut self, data: &[u8]) -> (r: Result<usize, IoFault>)
        ensures
            final(self).chunk == old(self).chunk,
            match r {
                Ok(n) => n == data@.len(),
                Err(_) => *final(self) == *old(self) && old(self).pos + data@.len() > usize::MAX,
            },
            old(self).pos + data@.len() <= usize::MAX ==> r is Ok,
    {
        let count = data.len();
        if count == 0 {
            return Ok(0);
        }
        let held = self.data.len();
        if self.pos > (usize::MAX - count) as u64 {
            assert(self.pos + count > held);
            return Err(IoFault { reason: "write past the addressable range".to_owned() });
        }
        let start = self.pos as usize;
        while self.data.len() < start
            invariant
                self.pos == old(self).pos,
                self.chunk == old(self).chunk,
                start == self.pos,
                old(self).data.len() <= self.data.len(),
                self.data.len() <= start || self.data.len() == old(self).data.len(),
                forall|k: int|
                    0 <= k < self.data.len() ==> self.data[k] == if k < old(self).data.len() {
                        old(self).data[k]
                    } else {
                        0u8
                    },
            decreases start - self.data.len(),
        {
            self.data.push(0u8);
        }
        let mut done: usize = 0;
        while done < count
            invariant
                done <= count,
                count == data@.len(),
                start + count <= usize::MAX,
                self.pos == old(self).pos,
                self.chunk == old(self).chunk,
                start == self.pos,
                start <= self.data.len(),
                self.data.len() == if old(self).data.len() >= start + done {
                    old(self).data.len()
                } else {
                    (start + done) as usize
                },
                forall|k: int|
                    0 <= k < self.data.len() ==> self.data[k] == if start <= k < start + done {
                        data@[k - start]
                    } else if k < old(self).data.len() {
                        old(self).data[k]
                    } else {
                        0u8
                    },
            decreases count - done,
        {
            let byte = data[done];
            if start + done < self.data.len() {
                self.data.set(start + done, byte);
            } else {
                self.data.push(byte);
            }
            done = done + 1;
        }
        proof {
            assert(data@.take(count as int) == data@);
            assert(self.data@ =~= overlaid(old(self).data@, old(self).pos as nat, data@));
        }
        self.pos = self.pos + count as u64;
        Ok(count)
    }
}

} // verus!
