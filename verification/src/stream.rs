//! The streams the engine works on, as a mathematical model and as traits.
//!
//! A stream is modelled by the bytes it holds from its very start
//! (`content`) and by the offset of the next byte to be transferred
//! (`cursor`). Reading never changes the content; writing replaces bytes at
//! the cursor and may lengthen the stream.

use vstd::prelude::*;

verus! {

/// Why an operation on a stream did not complete.
#[derive(Debug, Clone, PartialEq, Eq)]
pub struct IoFault {
    /// Human-readable cause, as reported by the underlying stream.
    pub reason: String,
}

/// The bytes that are still to be read when the cursor stands at `cursor`.
/// Nothing is left once the cursor is at or past the end.
pub open spec fn unread(content: Seq<u8>, cursor: nat) -> Seq<u8> {
    if cursor <= content.len() {
        content.subrange(cursor as int, content.len() as int)
    } else {
        Seq::empty()
    }
}

/// `base` with `data` laid over it from offset `at` on.
///
/// Bytes outside `[at, at + data.len())` keep their value. Where the data
/// reaches past the end of `base` the result is longer than `base`, and a gap
/// between the old end and `at` reads as zeros. Laying nothing over `base`
/// leaves it as it is.
pub open spec fn overlaid(base: Seq<u8>, at: nat, data: Seq<u8>) -> Seq<u8> {
    if data.len() == 0 {
        base
    } else {
        Seq::new(
            if base.len() >= at + data.len() { base.len() } else { at + data.len() },
            |i: int|
                if at <= i < at + data.len() {
                    data[i - at]
                } else if i < base.len() {
                    base[i]
                } else {
                    0u8
                },
        )
    }
}

/// A stream of bytes that can be read front to back.
pub trait ByteSource {
    /// Every byte of the stream, counted from its start.
    ///
    /// A type states its own model by overriding this and the two functions
    /// below. One that keeps them says nothing of itself, and whoever
    /// implements its operations answers for their contracts.
    open spec fn content(&self) -> Seq<u8> {
        arbitrary()
    }

    /// Offset of the next byte that a read delivers.
    open spec fn cursor(&self) -> nat {
        arbitrary()
    }

    /// Whether the stream is known never to fail. Operations on a reliable
    /// stream always succeed; on any other stream each may report a fault.
    open spec fn reliable(&self) -> bool {
        false
    }

    /// Reads some of the unread bytes into `buf`, starting at index `from`,
    /// and returns how many were placed.
    ///
    /// A single read may deliver fewer bytes than there is room for. It
    /// delivers none only when there is no room or nothing is left to read.
    /// No stream delivers a byte whose offset does not fit in 64 bits.
    fn read_into(&mut self, buf: &mut Vec<u8>, from: usize) -> (r: Result<usize, IoFault>)
        requires
            from <= old(buf).len(),
        ensures
            final(self).content() == old(self).content(),
            final(self).reliable() == old(self).reliable(),
            final(buf).len() == old(buf).len(),
            match r {
                Ok(n) => {
                    &&& n <= old(buf).len() - from
                    &&& n <= unread(old(self).content(), old(self).cursor()).len()
                    &&& n == 0 ==> from == old(buf).len() || unread(
                        old(self).content(),
                        old(self).cursor(),
                    ).len() == 0
                    &&& final(self).cursor() == old(self).cursor() + n
                    &&& old(self).cursor() + n <= u64::MAX
                    &&& final(buf)@ == overlaid(
                        old(buf)@,
                        from as nat,
                        unread(old(self).content(), old(self).cursor()).take(n as int),
                    )
                },
                Err(_) => !old(self).reliable(),
            },
    ;
}

/// A readable stream whose cursor can be moved and whose bytes can be
/// overwritten in place.
pub trait PatchTarget: ByteSource {
    /// Reports where the cursor stands.
    fn position(&mut self) -> (r: Result<u64, IoFault>)
        ensures
            final(self).content() == old(self).content(),
            final(self).cursor() == old(self).cursor(),
            final(self).reliable() == old(self).reliable(),
            match r {
                Ok(p) => p == old(self).cursor(),
                Err(_) => !old(self).reliable(),
            },
    ;

    /// Moves the cursor to `pos`, counted from the start of the stream.
    fn seek_to(&mut self, pos: u64) -> (r: Result<(), IoFault>)
        ensures
            final(self).content() == old(self).content(),
            final(self).reliable() == old(self).reliable(),
            match r {
                Ok(_) => final(self).cursor() == pos,
                Err(_) => !old(self).reliable(),
            },
    ;

    /// Writes a prefix of `data` at the cursor and returns its length.
    ///
    /// On a reliable stream a write that stays within the present content
    /// transfers all of `data`.
    fn write(&mut self, data: &[u8]) -> (r: Result<usize, IoFault>)
        ensures
            final(self).reliable() == old(self).reliable(),
            match r {
                Ok(n) => {
                    &&& n <= data@.len()
                    &&& final(self).content() == overlaid(
                        old(self).content(),
                        old(self).cursor(),
                        data@.take(n as int),
                    )
                    &&& final(self).cursor() == old(self).cursor() + n
                    &&& old(self).cursor() + n <= u64::MAX
                    &&& old(self).reliable() && old(self).cursor() + data@.len() <= old(
                        self,
                    ).content().len() ==> n == data@.len()
                },
                Err(_) => !old(self).reliable() || old(self).cursor() + data@.len() > old(
                    self,
                ).content().len(),
            },
    ;
}

} // verus!
