//! What a run computes, stated over sequences of bytes.
//!
//! A run works in rounds. Each round takes the next `buffer_size` unread bytes
//! of either stream (fewer at an end), and walks the part both have in blocks
//! of `block_size` bytes, the last of which may be shorter. A block that
//! differs is recorded under its ordinal and, when the run writes, laid over
//! the destination at `ordinal * block_size`. The run ends with the first
//! round in which either stream has nothing left.

use vstd::prelude::*;
use crate::stream::{overlaid, unread};
use crate::types::BlockSpan;

verus! {

/// What a run has compared and changed so far.
pub struct Tally {
    /// The destination's bytes.
    pub dest: Seq<u8>,
    /// Number of blocks compared; also the ordinal of the next block.
    pub blocks: nat,
    /// Number of bytes compared.
    pub bytes: nat,
    /// Number of bytes in the blocks that differed.
    pub differing_bytes: nat,
    /// The blocks that differed, in the order in which they were met.
    pub differing: Seq<BlockSpan>,
}

/// Where a run ends.
pub struct Outcome {
    /// What was compared and changed.
    pub tally: Tally,
    /// Final cursor of the source.
    pub source_cursor: nat,
    /// Final cursor of the destination.
    pub dest_cursor: nat,
}

/// The first `n` elements of `s`, or all of `s` where it has fewer.
pub open spec fn front(s: Seq<u8>, n: nat) -> Seq<u8> {
    if n <= s.len() {
        s.take(n as int)
    } else {
        s
    }
}

/// The `len` elements of `s` from index `from` on.
pub open spec fn piece(s: Seq<u8>, from: nat, len: nat) -> Seq<u8> {
    s.subrange(from as int, (from + len) as int)
}

/// The smaller of two numbers.
pub open spec fn least(a: nat, b: nat) -> nat {
    if a <= b {
        a
    } else {
        b
    }
}

/// The tally after one more block, whose bytes are `s` in the source and
/// `d` in the destination.
pub open spec fn compared(t: Tally, s: Seq<u8>, d: Seq<u8>, block_size: nat, write: bool) -> Tally {
    if s == d {
        Tally { blocks: t.blocks + 1, bytes: t.bytes + s.len(), ..t }
    } else {
        Tally {
            dest: if write {
                overlaid(t.dest, t.blocks * block_size, s)
            } else {
                t.dest
            },
            blocks: t.blocks + 1,
            bytes: t.bytes + s.len(),
            differing_bytes: t.differing_bytes + s.len(),
            differing: t.differing.push(
                BlockSpan {
                    index: t.blocks,
                    byte_offset: t.blocks * block_size,
                    size: s.len(),
                },
            ),
        }
    }
}

/// The tally after the blocks of one round from offset `from` on.
///
/// `a` and `b` are the bytes of the round that both streams have, so they
/// are equally long.
pub open spec fn rest_of_window(
    t: Tally,
    a: Seq<u8>,
    b: Seq<u8>,
    block_size: nat,
    write: bool,
    from: nat,
) -> Tally
    decreases a.len() - from,
{
    if from >= a.len() || block_size == 0 {
        t
    } else {
        let size = least(block_size, (a.len() - from) as nat);
        rest_of_window(
            compared(
                t,
                piece(a, from, size),
                piece(b, from, size),
                block_size,
                write,
            ),
            a,
            b,
            block_size,
            write,
            from + size,
        )
    }
}

/// Where a run ends that stands at tally `t` with the cursors at
/// `source_cursor` and `dest_cursor`.
pub open spec fn run_rest(
    source: Seq<u8>,
    source_cursor: nat,
    dest_cursor: nat,
    block_size: nat,
    buffer_size: nat,
    write: bool,
    t: Tally,
) -> Outcome
    decreases unread(source, source_cursor).len(),
{
    let a = front(unread(source, source_cursor), buffer_size);
    let b = front(unread(t.dest, dest_cursor), buffer_size);
    if a.len() == 0 || b.len() == 0 {
        Outcome {
            tally: t,
            source_cursor: source_cursor + a.len(),
            dest_cursor: dest_cursor + b.len(),
        }
    } else {
        let both = least(a.len(), b.len());
        run_rest(
            source,
            source_cursor + a.len(),
            dest_cursor + b.len(),
            block_size,
            buffer_size,
            write,
            rest_of_window(t, a.take(both as int), b.take(both as int), block_size, write, 0),
        )
    }
}

/// Where a run ends that starts with nothing compared.
pub open spec fn run_model(
    source: Seq<u8>,
    source_cursor: nat,
    dest: Seq<u8>,
    dest_cursor: nat,
    block_size: nat,
    buffer_size: nat,
    write: bool,
) -> Outcome {
    run_rest(
        source,
        source_cursor,
        dest_cursor,
        block_size,
        buffer_size,
        write,
        Tally { dest, blocks: 0, bytes: 0, differing_bytes: 0, differing: Seq::empty() },
    )
}

} // verus!
