//! Where the blocks of a run lie, whatever the sizes of block and buffer.
//!
//! Every round of `buffer_size` bytes is cut into blocks on its own, so a
//! buffer that does not hold a whole number of blocks ends every round in a
//! short block, and the next round starts a new block. Block `k` then lies in
//! round `k / blocks_in(buffer_size, block_size)`.

use vstd::prelude::*;
use vstd::arithmetic::div_mod::{lemma_fundamental_div_mod, lemma_fundamental_div_mod_converse};
use crate::laws::{fresh, lemma_window_reads_only};
use crate::model::{Tally, compared, front, least, piece, rest_of_window, run_model, run_rest};
use crate::stream::unread;
use crate::types::BlockSpan;

verus! {

/// The number of blocks that a round of `len` bytes is walked in: as many
/// whole blocks as fit, and one more for what is left over.
pub open spec fn blocks_in(len: nat, block_size: nat) -> nat {
    if len == 0 || block_size == 0 {
        0
    } else {
        ((len - 1) / block_size as int + 1) as nat
    }
}

/// The number of blocks that `n` bytes are compared in: every full round
/// of `buffer_size` bytes is walked on its own, and so is the rest. Where
/// the buffer does not hold a whole number of blocks, every round ends in a
/// short block.
pub open spec fn block_total(n: nat, block_size: nat, buffer_size: nat) -> nat {
    if buffer_size == 0 {
        0
    } else {
        (n / buffer_size) * blocks_in(buffer_size, block_size) + blocks_in(
            n % buffer_size,
            block_size,
        )
    }
}

/// The byte at which block `k` starts, counted from where the run began.
pub open spec fn block_start(k: nat, block_size: nat, buffer_size: nat) -> nat {
    (k / blocks_in(buffer_size, block_size)) * buffer_size + (k % blocks_in(
        buffer_size,
        block_size,
    )) * block_size
}

/// The byte before which block `k` ends: a block's length further, where
/// neither its round nor the `n` bytes compared end before that.
pub open spec fn block_end(k: nat, block_size: nat, buffer_size: nat, n: nat) -> nat {
    least(
        least(
            block_start(k, block_size, buffer_size) + block_size,
            (k / blocks_in(buffer_size, block_size)) * buffer_size + buffer_size,
        ),
        n,
    )
}

/// The blocks among the first `k` whose bytes differ between `s` and `d`, in
/// ascending order, each under its ordinal, at its ordinal times the block
/// size, and with the number of bytes it holds.
pub open spec fn differing_upto(
    s: Seq<u8>,
    d: Seq<u8>,
    block_size: nat,
    buffer_size: nat,
    n: nat,
    k: nat,
) -> Seq<BlockSpan>
    decreases k,
{
    if k == 0 {
        Seq::empty()
    } else {
        let j = (k - 1) as nat;
        let before = differing_upto(s, d, block_size, buffer_size, n, j);
        let from = block_start(j, block_size, buffer_size);
        let len = (block_end(j, block_size, buffer_size, n) - from) as nat;
        if piece(s, from, len) != piece(d, from, len) {
            before.push(BlockSpan { index: j, byte_offset: j * block_size, size: len })
        } else {
            before
        }
    }
}

proof fn lemma_block_in_round(j: nat, block_size: nat, buffer_size: nat)
    requires
        block_size > 0,
        j * block_size < buffer_size,
    ensures
        j < blocks_in(buffer_size, block_size),
{
    let whole = (buffer_size - 1) / block_size as int;
    lemma_fundamental_div_mod(buffer_size - 1, block_size as int);
    assert(j <= whole) by (nonlinear_arith)
        requires
            j * block_size <= buffer_size - 1,
            buffer_size - 1 == block_size * whole + (buffer_size - 1) % (block_size as int),
            0 <= (buffer_size - 1) % (block_size as int) < block_size,
            block_size > 0,
    ;
}

proof fn lemma_blocks_that_fill(j: nat, len: nat, block_size: nat)
    requires
        block_size > 0,
        len > 0,
        j >= 1,
        (j - 1) * block_size < len <= j * block_size,
    ensures
        j == blocks_in(len, block_size),
{
    let rest = len - 1 - (j - 1) * block_size;
    assert(0 <= rest < block_size) by (nonlinear_arith)
        requires
            (j - 1) * block_size < len <= j * block_size,
            rest == len - 1 - (j - 1) * block_size,
    ;
    lemma_fundamental_div_mod_converse(len - 1, block_size as int, j - 1, rest);
}

proof fn lemma_layout_window(
    s: Seq<u8>,
    d: Seq<u8>,
    block_size: nat,
    buffer_size: nat,
    n: nat,
    round: nat,
    both: nat,
    from: nat,
    j: nat,
    t: Tally,
)
    requires
        block_size > 0,
        buffer_size > 0,
        n <= s.len(),
        n <= d.len(),
        round * buffer_size <= n,
        both == least(buffer_size, (n - round * buffer_size) as nat),
        from == least(j * block_size, both),
        j == 0 || (j - 1) * block_size < both,
        t.blocks == round * blocks_in(buffer_size, block_size) + j,
        t.differing == differing_upto(s, d, block_size, buffer_size, n, t.blocks),
    ensures
        ({
            let end = rest_of_window(
                t,
                piece(s, round * buffer_size, both),
                piece(d, round * buffer_size, both),
                block_size,
                false,
                from,
            );
            &&& end.blocks == round * blocks_in(buffer_size, block_size) + blocks_in(
                both,
                block_size,
            )
            &&& end.differing == differing_upto(s, d, block_size, buffer_size, n, end.blocks)
        }),
    decreases both - from,
{
    let base = round * buffer_size;
    let per = blocks_in(buffer_size, block_size);
    let a = piece(s, base, both);
    let b = piece(d, base, both);
    if from >= both {
        if both > 0 {
            assert(j >= 1) by (nonlinear_arith)
                requires
                    j * block_size >= both,
                    both > 0,
            ;
            lemma_blocks_that_fill(j, both, block_size);
        } else {
            assert(j == 0) by (nonlinear_arith)
                requires
                    j == 0 || (j - 1) * block_size < 0,
                    block_size > 0,
            ;
        }
    } else {
        let k = t.blocks;
        let size = least(block_size, (both - from) as nat);
        assert(from == j * block_size);
        lemma_block_in_round(j, block_size, buffer_size);
        lemma_fundamental_div_mod_converse(k as int, per as int, round as int, j as int);
        assert(block_start(k, block_size, buffer_size) == base + from);
        assert(block_end(k, block_size, buffer_size, n) == base + from + size);
        assert(piece(a, from, size) == piece(s, base + from, size));
        assert(piece(b, from, size) == piece(d, base + from, size));
        let next = compared(t, piece(a, from, size), piece(b, from, size), block_size, false);
        assert(next.differing == differing_upto(s, d, block_size, buffer_size, n, k + 1));
        assert((j + 1) * block_size == j * block_size + block_size) by (nonlinear_arith);
        lemma_layout_window(
            s,
            d,
            block_size,
            buffer_size,
            n,
            round,
            both,
            from + size,
            j + 1,
            next,
        );
    }
}

proof fn lemma_layout_run(
    source: Seq<u8>,
    source_start: nat,
    dest: Seq<u8>,
    dest_start: nat,
    block_size: nat,
    buffer_size: nat,
    round: nat,
    t: Tally,
)
    requires
        block_size > 0,
        buffer_size > 0,
        round * buffer_size <= least(
            unread(source, source_start).len(),
            unread(dest, dest_start).len(),
        ),
        t.dest == dest,
        t.blocks == round * blocks_in(buffer_size, block_size),
        t.differing == differing_upto(
            unread(source, source_start),
            unread(dest, dest_start),
            block_size,
            buffer_size,
            least(unread(source, source_start).len(), unread(dest, dest_start).len()),
            t.blocks,
        ),
    ensures
        ({
            let s = unread(source, source_start);
            let d = unread(dest, dest_start);
            let n = least(s.len(), d.len());
            let end = run_rest(
                source,
                source_start + round * buffer_size,
                dest_start + round * buffer_size,
                block_size,
                buffer_size,
                false,
                t,
            ).tally;
            &&& end.blocks == block_total(n, block_size, buffer_size)
            &&& end.differing == differing_upto(s, d, block_size, buffer_size, n, end.blocks)
        }),
    decreases
            least(unread(source, source_start).len(), unread(dest, dest_start).len()) - round
                * buffer_size,
{
    let s = unread(source, source_start);
    let d = unread(dest, dest_start);
    let n = least(s.len(), d.len());
    let per = blocks_in(buffer_size, block_size);
    let p = round * buffer_size;
    let a = front(unread(source, source_start + p), buffer_size);
    let b = front(unread(dest, dest_start + p), buffer_size);
    let whole = run_rest(
        source,
        source_start + p,
        dest_start + p,
        block_size,
        buffer_size,
        false,
        t,
    );
    if a.len() == 0 || b.len() == 0 {
        assert(p == n);
        lemma_fundamental_div_mod_converse(n as int, buffer_size as int, round as int, 0);
        assert(whole.tally == t);
    } else {
        assert(unread(source, source_start + p) == s.skip(p as int));
        assert(unread(dest, dest_start + p) == d.skip(p as int));
        let both = least(a.len(), b.len());
        assert(both == least(buffer_size, (n - p) as nat));
        assert(a.take(both as int) == piece(s, p, both));
        assert(b.take(both as int) == piece(d, p, both));
        assert(0 == least(0 * block_size, both)) by (nonlinear_arith)
            requires
                both >= 0,
        ;
        lemma_layout_window(s, d, block_size, buffer_size, n, round, both, 0, 0, t);
        lemma_window_reads_only(t, a.take(both as int), b.take(both as int), block_size, 0);
        let next = rest_of_window(
            t,
            a.take(both as int),
            b.take(both as int),
            block_size,
            false,
            0,
        );
        let after = run_rest(
            source,
            source_start + p + a.len(),
            dest_start + p + b.len(),
            block_size,
            buffer_size,
            false,
            next,
        );
        assert(whole == after);
        if both == buffer_size {
            assert((round + 1) * buffer_size == p + buffer_size && (round + 1) * per == round
                * per + per) by (nonlinear_arith)
                requires
                    p == round * buffer_size,
            ;
            lemma_layout_run(
                source,
                source_start,
                dest,
                dest_start,
                block_size,
                buffer_size,
                round + 1,
                next,
            );
        } else {
            assert(p + both == n);
            lemma_fundamental_div_mod_converse(
                n as int,
                buffer_size as int,
                round as int,
                both as int,
            );
            let a2 = front(unread(source, source_start + p + a.len()), buffer_size);
            let b2 = front(unread(next.dest, dest_start + p + b.len()), buffer_size);
            assert(a2.len() == 0 || b2.len() == 0);
            assert(after.tally == next);
        }
    }
}

/// A run that writes nothing lists exactly the blocks whose bytes differ
/// between the unread source and the unread destination, whatever the sizes
/// of block and buffer and wherever the cursors stand: block `k` holds the
/// bytes from `block_start` up to `block_end`, counted from the cursors.
pub proof fn law_differing_blocks_are_listed(
    source: Seq<u8>,
    source_cursor: nat,
    dest: Seq<u8>,
    dest_cursor: nat,
    block_size: nat,
    buffer_size: nat,
)
    requires
        block_size > 0,
        buffer_size > 0,
    ensures
        ({
            let s = unread(source, source_cursor);
            let d = unread(dest, dest_cursor);
            let n = least(s.len(), d.len());
            let end = run_model(
                source,
                source_cursor,
                dest,
                dest_cursor,
                block_size,
                buffer_size,
                false,
            ).tally;
            &&& end.blocks == block_total(n, block_size, buffer_size)
            &&& end.differing == differing_upto(s, d, block_size, buffer_size, n, end.blocks)
        }),
{
    let per = blocks_in(buffer_size, block_size);
    assert(0 * buffer_size == 0 && 0 * per == 0) by (nonlinear_arith);
    lemma_layout_run(
        source,
        source_cursor,
        dest,
        dest_cursor,
        block_size,
        buffer_size,
        0,
        fresh(dest),
    );
}

/// Every block listed among the first `k` is listed under its ordinal and at
/// its ordinal times the block size, holds the bytes from where it starts to
/// where it ends, and those bytes differ between `s` and `d`. The list is in
/// ascending order.
pub proof fn law_listed_blocks_differ_where_they_lie(
    s: Seq<u8>,
    d: Seq<u8>,
    block_size: nat,
    buffer_size: nat,
    n: nat,
    k: nat,
)
    ensures
        forall|i: int|
            0 <= i < differing_upto(s, d, block_size, buffer_size, n, k).len() ==> {
                let span = #[trigger] differing_upto(s, d, block_size, buffer_size, n, k)[i];
                let from = block_start(span.index, block_size, buffer_size);
                &&& span.index < k
                &&& span.byte_offset == span.index * block_size
                &&& span.size == (block_end(span.index, block_size, buffer_size, n) - from) as nat
                &&& piece(s, from, span.size) != piece(d, from, span.size)
                &&& i > 0 ==> differing_upto(s, d, block_size, buffer_size, n, k)[i - 1].index
                    < span.index
            },
    decreases k,
{
    if k > 0 {
        let j = (k - 1) as nat;
        law_listed_blocks_differ_where_they_lie(s, d, block_size, buffer_size, n, j);
        let before = differing_upto(s, d, block_size, buffer_size, n, j);
        let all = differing_upto(s, d, block_size, buffer_size, n, k);
        assert forall|i: int| 0 <= i < all.len() implies {
            let span = #[trigger] all[i];
            let from = block_start(span.index, block_size, buffer_size);
            &&& span.index < k
            &&& span.byte_offset == span.index * block_size
            &&& span.size == (block_end(span.index, block_size, buffer_size, n) - from) as nat
            &&& piece(s, from, span.size) != piece(d, from, span.size)
            &&& i > 0 ==> all[i - 1].index < span.index
        } by {
            if i < before.len() {
                assert(all[i] == before[i]);
                if i > 0 {
                    assert(all[i - 1] == before[i - 1]);
                }
            } else {
                let from = block_start(j, block_size, buffer_size);
                let len = (block_end(j, block_size, buffer_size, n) - from) as nat;
                assert(all == before.push(
                    BlockSpan { index: j, byte_offset: j * block_size, size: len },
                ));
                assert(all[i].index == j);
                if i > 0 {
                    assert(all[i - 1] == before[i - 1]);
                    assert(before[i - 1].index < j);
                }
            }
        }
    }
}

} // verus!
