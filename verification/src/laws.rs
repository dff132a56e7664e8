//! What holds of every run, proved of the model.

use vstd::prelude::*;
use crate::model::{
    Tally,
    compared,
    front,
    least,
    piece,
    rest_of_window,
    run_model,
    run_rest,
};
use crate::stream::{overlaid, unread};
use crate::types::BlockSpan;

verus! {

/// The bytes in the blocks of `list`, added up.
pub open spec fn span_bytes(list: Seq<BlockSpan>) -> nat
    decreases list.len(),
{
    if list.len() == 0 {
        0
    } else {
        span_bytes(list.drop_last()) + list.last().size
    }
}

/// Whether tally `t` is one that a run with blocks of `block_size` bytes can
/// stand at: no counter of differing blocks exceeds its counter of compared
/// ones, no more blocks than bytes were compared, every recorded block holds
/// between one and `block_size` bytes, lies at its ordinal times
/// `block_size`, and the recorded blocks come in ascending order.
pub open spec fn orderly(t: Tally, block_size: nat) -> bool {
    &&& t.differing.len() <= t.blocks <= t.bytes
    &&& t.differing_bytes <= t.bytes
    &&& t.differing_bytes == span_bytes(t.differing)
    &&& forall|i: int|
        0 <= i < t.differing.len() ==> {
            &&& (#[trigger] t.differing[i]).index < t.blocks
            &&& t.differing[i].byte_offset == t.differing[i].index * block_size
            &&& 0 < t.differing[i].size <= block_size
        }
    &&& forall|i: int, j: int|
        0 <= i < j < t.differing.len() ==> (#[trigger] t.differing[i]).index < (
        #[trigger] t.differing[j]).index
}

/// The tally with which every run starts.
pub open spec fn fresh(dest: Seq<u8>) -> Tally {
    Tally { dest, blocks: 0, bytes: 0, differing_bytes: 0, differing: Seq::empty() }
}

proof fn lemma_block_orderly(t: Tally, s: Seq<u8>, d: Seq<u8>, block_size: nat, write: bool)
    requires
        orderly(t, block_size),
        0 < s.len() <= block_size,
    ensures
        orderly(compared(t, s, d, block_size, write), block_size),
{
    let next = compared(t, s, d, block_size, write);
    if s != d {
        assert(next.differing.drop_last() == t.differing);
        assert forall|i: int| 0 <= i < next.differing.len() implies {
            &&& (#[trigger] next.differing[i]).index < next.blocks
            &&& next.differing[i].byte_offset == next.differing[i].index * block_size
            &&& 0 < next.differing[i].size <= block_size
        } by {
            if i < t.differing.len() {
                assert(next.differing[i] == t.differing[i]);
            }
        }
        assert forall|i: int, j: int| 0 <= i < j < next.differing.len() implies (
        #[trigger] next.differing[i]).index < (#[trigger] next.differing[j]).index by {
            assert(next.differing[i] == t.differing[i]);
            if j < t.differing.len() {
                assert(next.differing[j] == t.differing[j]);
            }
        }
    }
}

/// Walking a round keeps the tally orderly and adds the round's length to the
/// bytes compared. A run that does not write leaves the destination alone.
pub proof fn lemma_window_orderly(
    t: Tally,
    a: Seq<u8>,
    b: Seq<u8>,
    block_size: nat,
    write: bool,
    from: nat,
)
    requires
        orderly(t, block_size),
        block_size > 0,
        from <= a.len(),
    ensures
        orderly(rest_of_window(t, a, b, block_size, write, from), block_size),
        rest_of_window(t, a, b, block_size, write, from).bytes == t.bytes + a.len() - from,
        !write ==> rest_of_window(t, a, b, block_size, write, from).dest == t.dest,
    decreases a.len() - from,
{
    if from < a.len() {
        let size = least(block_size, (a.len() - from) as nat);
        let s = piece(a, from, size);
        let d = piece(b, from, size);
        lemma_block_orderly(t, s, d, block_size, write);
        lemma_window_orderly(compared(t, s, d, block_size, write), a, b, block_size, write, from + size);
    }
}

/// Every run ends at an orderly tally. A run that does not write leaves the
/// destination as it was and compares exactly as many bytes as the shorter
/// of the two unread parts holds.
pub proof fn lemma_run_orderly(
    source: Seq<u8>,
    source_cursor: nat,
    dest_cursor: nat,
    block_size: nat,
    buffer_size: nat,
    write: bool,
    t: Tally,
)
    requires
        orderly(t, block_size),
        block_size > 0,
        buffer_size > 0,
    ensures
        orderly(
            run_rest(source, source_cursor, dest_cursor, block_size, buffer_size, write, t).tally,
            block_size,
        ),
        !write ==> {
            &&& run_rest(
                source,
                source_cursor,
                dest_cursor,
                block_size,
                buffer_size,
                write,
                t,
            ).tally.dest == t.dest
            &&& run_rest(
                source,
                source_cursor,
                dest_cursor,
                block_size,
                buffer_size,
                write,
                t,
            ).tally.bytes == t.bytes + least(
                unread(source, source_cursor).len(),
                unread(t.dest, dest_cursor).len(),
            )
        },
    decreases unread(source, source_cursor).len(),
{
    let a = front(unread(source, source_cursor), buffer_size);
    let b = front(unread(t.dest, dest_cursor), buffer_size);
    if a.len() == 0 || b.len() == 0 {
    } else {
        let both = least(a.len(), b.len());
        let next = rest_of_window(
            t,
            a.take(both as int),
            b.take(both as int),
            block_size,
            write,
            0,
        );
        lemma_window_orderly(t, a.take(both as int), b.take(both as int), block_size, write, 0);
        lemma_run_orderly(
            source,
            source_cursor + a.len(),
            dest_cursor + b.len(),
            block_size,
            buffer_size,
            write,
            next,
        );
    }
}

/// The blocks recorded at tally `t` are still there, in the same places,
/// when the rest of the round has been walked.
pub proof fn lemma_window_keeps(
    t: Tally,
    a: Seq<u8>,
    b: Seq<u8>,
    block_size: nat,
    write: bool,
    from: nat,
)
    ensures
        t.differing.len() <= rest_of_window(t, a, b, block_size, write, from).differing.len(),
        forall|i: int|
            0 <= i < t.differing.len() ==> rest_of_window(
                t,
                a,
                b,
                block_size,
                write,
                from,
            ).differing[i] == t.differing[i],
    decreases a.len() - from,
{
    if from >= a.len() || block_size == 0 {
    } else {
        let size = least(block_size, (a.len() - from) as nat);
        let next = compared(t, piece(a, from, size), piece(b, from, size), block_size, write);
        lemma_window_keeps(next, a, b, block_size, write, from + size);
        let whole = rest_of_window(t, a, b, block_size, write, from);
        assert forall|i: int| 0 <= i < t.differing.len() implies whole.differing[i]
            == t.differing[i] by {
            assert(next.differing[i] == t.differing[i]);
        }
    }
}

/// The blocks recorded at tally `t` are still there, in the same places,
/// when the run has ended.
pub proof fn lemma_run_keeps(
    source: Seq<u8>,
    source_cursor: nat,
    dest_cursor: nat,
    block_size: nat,
    buffer_size: nat,
    write: bool,
    t: Tally,
)
    ensures
        t.differing.len() <= run_rest(
            source,
            source_cursor,
            dest_cursor,
            block_size,
            buffer_size,
            write,
            t,
        ).tally.differing.len(),
        forall|i: int|
            0 <= i < t.differing.len() ==> run_rest(
                source,
                source_cursor,
                dest_cursor,
                block_size,
                buffer_size,
                write,
                t,
            ).tally.differing[i] == t.differing[i],
    decreases unread(source, source_cursor).len(),
{
    let a = front(unread(source, source_cursor), buffer_size);
    let b = front(unread(t.dest, dest_cursor), buffer_size);
    if a.len() == 0 || b.len() == 0 {
    } else {
        let both = least(a.len(), b.len());
        let next = rest_of_window(
            t,
            a.take(both as int),
            b.take(both as int),
            block_size,
            write,
            0,
        );
        lemma_window_keeps(t, a.take(both as int), b.take(both as int), block_size, write, 0);
        lemma_run_keeps(
            source,
            source_cursor + a.len(),
            dest_cursor + b.len(),
            block_size,
            buffer_size,
            write,
            next,
        );
        let whole = run_rest(
            source,
            source_cursor,
            dest_cursor,
            block_size,
            buffer_size,
            write,
            t,
        );
        assert forall|i: int| 0 <= i < t.differing.len() implies whole.tally.differing[i]
            == t.differing[i] by {
            assert(next.differing[i] == t.differing[i]);
        }
    }
}

/// Whether `k` blocks of `block_size` bytes make up exactly the first `p` of
/// `n` bytes: all of them whole, or the last one cut short by the end.
pub open spec fn covers(k: nat, p: nat, block_size: nat, n: nat) -> bool {
    p <= n && (p == k * block_size || (p == n && k >= 1 && (k - 1) * block_size < n < k
        * block_size))
}

/// Whether block `k` differs between `s` and `d`, where the blocks are laid
/// out from byte zero and `n` bytes are compared in all.
pub open spec fn block_differs(s: Seq<u8>, d: Seq<u8>, block_size: nat, n: nat, k: nat) -> bool {
    s.subrange((k * block_size) as int, least(k * block_size + block_size, n) as int)
        != d.subrange((k * block_size) as int, least(k * block_size + block_size, n) as int)
}

/// The blocks among the first `k` that differ between `s` and `d`, in
/// ascending order, where the blocks are laid out from byte zero and `n`
/// bytes are compared in all.
pub open spec fn differing_among(
    s: Seq<u8>,
    d: Seq<u8>,
    block_size: nat,
    n: nat,
    k: nat,
) -> Seq<BlockSpan>
    decreases k,
{
    if k == 0 {
        Seq::empty()
    } else {
        let before = differing_among(s, d, block_size, n, (k - 1) as nat);
        if block_differs(s, d, block_size, n, (k - 1) as nat) {
            before.push(
                BlockSpan {
                    index: (k - 1) as nat,
                    byte_offset: (k - 1) as nat * block_size,
                    size: (least((k - 1) as nat * block_size + block_size, n) - (k - 1)
                        * block_size) as nat,
                },
            )
        } else {
            before
        }
    }
}

/// Whether tally `t` is what a run has come to that started at byte zero of
/// the source bytes `s` and of the destination bytes `d`, compares `n` bytes
/// in all, lays its blocks out from byte zero, and has compared the first `p`
/// bytes.
#[verifier::opaque]
pub open spec fn in_step(
    s: Seq<u8>,
    d: Seq<u8>,
    block_size: nat,
    n: nat,
    write: bool,
    p: nat,
    t: Tally,
) -> bool {
    &&& covers(t.blocks, p, block_size, n)
    &&& t.bytes == p
    &&& t.dest.len() == d.len()
    &&& forall|i: int| p <= i < d.len() ==> t.dest[i] == d[i]
    &&& write ==> forall|i: int| 0 <= i < p ==> t.dest[i] == s[i]
    &&& !write ==> t.dest == d
    &&& t.differing == differing_among(s, d, block_size, n, t.blocks)
}

/// What a run that is in step has come to: its blocks make up the bytes
/// compared, and the destination is as long as it was and holds what it held
/// from the first byte not yet compared.
pub proof fn lemma_in_step_means(
    s: Seq<u8>,
    d: Seq<u8>,
    block_size: nat,
    n: nat,
    write: bool,
    p: nat,
    t: Tally,
)
    requires
        in_step(s, d, block_size, n, write, p, t),
    ensures
        covers(t.blocks, p, block_size, n),
        t.bytes == p,
        t.dest.len() == d.len(),
        unread(t.dest, p) == unread(d, p),
{
    reveal(in_step);
    assert(unread(t.dest, p) =~= unread(d, p));
}

/// A run that has compared nothing is in step.
pub proof fn lemma_fresh_in_step(s: Seq<u8>, d: Seq<u8>, block_size: nat, n: nat, write: bool)
    ensures
        in_step(s, d, block_size, n, write, 0, fresh(d)),
{
    reveal(in_step);
    assert(0 == 0 * block_size) by (nonlinear_arith);
}

proof fn lemma_next_multiple(k: nat, block_size: nat)
    ensures
        (k + 1) * block_size == k * block_size + block_size,
{
    assert((k + 1) * block_size == k * block_size + block_size) by (nonlinear_arith);
}

/// One more block keeps a run in step. The block starts at its ordinal times
/// the block size and ends within the bytes that both streams hold.
pub proof fn lemma_block_in_step(
    s: Seq<u8>,
    d: Seq<u8>,
    block_size: nat,
    n: nat,
    write: bool,
    p: nat,
    t: Tally,
)
    requires
        block_size > 0,
        n <= s.len(),
        n <= d.len(),
        p < n,
        in_step(s, d, block_size, n, write, p, t),
    ensures
        t.blocks * block_size == p,
        t.bytes == p,
        t.dest.len() == d.len(),
        in_step(
            s,
            d,
            block_size,
            n,
            write,
            p + least(block_size, (n - p) as nat),
            compared(
                t,
                piece(s, p, least(block_size, (n - p) as nat)),
                piece(d, p, least(block_size, (n - p) as nat)),
                block_size,
                write,
            ),
        ),
{
    reveal(in_step);
    let size = least(block_size, (n - p) as nat);
    let sb = piece(s, p, size);
    let db = piece(d, p, size);
    let next = compared(t, sb, db, block_size, write);
    let k = t.blocks;
    lemma_next_multiple(k, block_size);
    assert(k * block_size == p);
    assert(least(k * block_size + block_size, n) == p + size);
    assert(block_differs(s, d, block_size, n, k) == (sb != db));
    assert(next.differing == differing_among(s, d, block_size, n, k + 1));
    assert(covers(k + 1, p + size, block_size, n));
    if sb != db && write {
        assert(next.dest == overlaid(t.dest, p, sb));
        assert(next.dest.len() == d.len());
        assert forall|i: int| 0 <= i < p + size implies next.dest[i] == s[i] by {
            if i >= p {
                assert(sb[i - p] == s[i]);
            }
        }
    } else if write {
        assert forall|i: int| 0 <= i < p + size implies next.dest[i] == s[i] by {
            if i >= p {
                assert(sb[i - p] == s[i]);
                assert(db[i - p] == d[i]);
            }
        }
    }
}

/// Walking a round keeps a run in step, where the round starts at byte
/// `base`, holds `both` bytes, and either ends where the shorter stream ends
/// or has `left` whole blocks to go from offset `from`.
pub proof fn lemma_window_in_step(
    s: Seq<u8>,
    d: Seq<u8>,
    block_size: nat,
    n: nat,
    write: bool,
    base: nat,
    both: nat,
    from: nat,
    left: nat,
    t: Tally,
)
    requires
        block_size > 0,
        n <= s.len(),
        n <= d.len(),
        base + both <= n,
        from <= both,
        base + both == n || both - from == left * block_size,
        in_step(s, d, block_size, n, write, base + from, t),
    ensures
        in_step(
            s,
            d,
            block_size,
            n,
            write,
            base + both,
            rest_of_window(
                t,
                piece(s, base, both),
                piece(d, base, both),
                block_size,
                write,
                from,
            ),
        ),
    decreases both - from,
{
    let a = piece(s, base, both);
    let b = piece(d, base, both);
    if from < both {
        let p = base + from;
        let size = least(block_size, (both - from) as nat);
        if base + both != n {
            assert(left >= 1 && left * block_size >= block_size && (left - 1) * block_size
                == left * block_size - block_size) by (nonlinear_arith)
                requires
                    left * block_size > 0,
                    block_size > 0,
            ;
        }
        assert(size == least(block_size, (n - p) as nat));
        assert(piece(a, from, size) == piece(s, p, size));
        assert(piece(b, from, size) == piece(d, p, size));
        lemma_block_in_step(s, d, block_size, n, write, p, t);
        let next = compared(
            t,
            piece(s, p, size),
            piece(d, p, size),
            block_size,
            write,
        );
        lemma_window_in_step(
            s,
            d,
            block_size,
            n,
            write,
            base,
            both,
            from + size,
            (left - 1) as nat,
            next,
        );
    }
}

/// A run whose buffer holds a whole number of blocks, and whose destination
/// is read from its first byte, stays in step to its end.
pub proof fn lemma_run_in_step(
    source: Seq<u8>,
    source_start: nat,
    d: Seq<u8>,
    block_size: nat,
    buffer_size: nat,
    write: bool,
    p: nat,
    t: Tally,
)
    requires
        block_size > 0,
        buffer_size > 0,
        buffer_size % block_size == 0,
        in_step(
            unread(source, source_start),
            d,
            block_size,
            least(unread(source, source_start).len(), d.len()),
            write,
            p,
            t,
        ),
        p == t.blocks * block_size || p == least(unread(source, source_start).len(), d.len()),
    ensures
        in_step(
            unread(source, source_start),
            d,
            block_size,
            least(unread(source, source_start).len(), d.len()),
            write,
            least(unread(source, source_start).len(), d.len()),
            run_rest(source, source_start + p, p, block_size, buffer_size, write, t).tally,
        ),
    decreases least(unread(source, source_start).len(), d.len()) - p,
{
    reveal(in_step);
    let s = unread(source, source_start);
    let n = least(s.len(), d.len());
    let sc = source_start + p;
    let a = front(unread(source, sc), buffer_size);
    let b = front(unread(t.dest, p), buffer_size);
    let whole = run_rest(source, sc, p, block_size, buffer_size, write, t);
    if p == n {
        assert(a.len() == 0 || b.len() == 0);
        assert(whole.tally == t);
    } else {
        assert(unread(source, sc) == s.skip(p as int));
        assert(unread(t.dest, p) == d.skip(p as int));
        let both = least(a.len(), b.len());
        assert(both == least(buffer_size, (n - p) as nat));
        assert(a.take(both as int) == piece(s, p, both));
        assert(b.take(both as int) == piece(d, p, both));
        let left = buffer_size / block_size;
        assert(buffer_size == left * block_size) by (nonlinear_arith)
            requires
                block_size > 0,
                buffer_size % block_size == 0,
                left == buffer_size / block_size,
        ;
        lemma_window_in_step(s, d, block_size, n, write, p, both, 0, left, t);
        let next = rest_of_window(
            t,
            a.take(both as int),
            b.take(both as int),
            block_size,
            write,
            0,
        );
        let q = p + both;
        assert(in_step(s, d, block_size, n, write, q, next));
        let after = run_rest(
            source,
            sc + a.len(),
            p + b.len(),
            block_size,
            buffer_size,
            write,
            next,
        );
        assert(whole == after);
        if a.len() == buffer_size && b.len() == buffer_size {
            lemma_run_in_step(source, source_start, d, block_size, buffer_size, write, q, next);
        } else {
            assert(q == n);
            let a2 = front(unread(source, sc + a.len()), buffer_size);
            let b2 = front(unread(next.dest, p + b.len()), buffer_size);
            assert(a2.len() == 0 || b2.len() == 0);
            assert(after.tally == next);
        }
    }
}

/// Only one number of blocks makes up a given number of bytes.
pub proof fn lemma_covers_once(k1: nat, k2: nat, p: nat, block_size: nat, n: nat)
    requires
        block_size > 0,
        covers(k1, p, block_size, n),
        covers(k2, p, block_size, n),
    ensures
        k1 == k2,
{
    assert(k1 == k2) by (nonlinear_arith)
        requires
            block_size > 0,
            p == k1 * block_size || (k1 >= 1 && (k1 - 1) * block_size < p < k1 * block_size),
            p == k2 * block_size || (k2 >= 1 && (k2 - 1) * block_size < p < k2 * block_size),
    ;
}

/// Every block listed among the first `k` lies at its ordinal times the block
/// size, ends within the `n` bytes compared, and holds bytes that differ
/// between `s` and `d`.
pub proof fn lemma_listed_blocks_differ(
    s: Seq<u8>,
    d: Seq<u8>,
    block_size: nat,
    n: nat,
    k: nat,
)
    requires
        block_size > 0,
        k == 0 || (k - 1) * block_size < n,
    ensures
        forall|i: int|
            0 <= i < differing_among(s, d, block_size, n, k).len() ==> {
                let span = #[trigger] differing_among(s, d, block_size, n, k)[i];
                &&& span.index < k
                &&& span.byte_offset == span.index * block_size
                &&& span.byte_offset + span.size <= n
                &&& piece(s, span.byte_offset, span.size) != piece(d, span.byte_offset, span.size)
            },
    decreases k,
{
    if k > 0 {
        let j = (k - 1) as nat;
        if j > 0 {
            assert((j - 1) * block_size < n) by (nonlinear_arith)
                requires
                    j * block_size < n,
                    block_size > 0,
                    j > 0,
            ;
        }
        lemma_listed_blocks_differ(s, d, block_size, n, j);
        let before = differing_among(s, d, block_size, n, j);
        let all = differing_among(s, d, block_size, n, k);
        assert forall|i: int| 0 <= i < all.len() implies {
            let span = #[trigger] all[i];
            &&& span.index < k
            &&& span.byte_offset == span.index * block_size
            &&& span.byte_offset + span.size <= n
            &&& piece(s, span.byte_offset, span.size) != piece(d, span.byte_offset, span.size)
        } by {
            if i < before.len() {
                assert(all[i] == before[i]);
            }
        }
    }
}

/// Where `s` and `d` agree on the `n` bytes compared, no block is listed.
pub proof fn lemma_nothing_listed(s: Seq<u8>, d: Seq<u8>, block_size: nat, n: nat, k: nat)
    requires
        block_size > 0,
        n <= s.len(),
        n <= d.len(),
        s.take(n as int) == d.take(n as int),
        k == 0 || (k - 1) * block_size < n,
    ensures
        differing_among(s, d, block_size, n, k).len() == 0,
    decreases k,
{
    if k > 0 {
        let j = (k - 1) as nat;
        if j > 0 {
            assert((j - 1) * block_size < n) by (nonlinear_arith)
                requires
                    j * block_size < n,
                    block_size > 0,
                    j > 0,
            ;
        }
        lemma_nothing_listed(s, d, block_size, n, j);
        let from = j * block_size;
        let to = least(from + block_size, n);
        assert(from < n);
        let sb = s.subrange(from as int, to as int);
        let db = d.subrange(from as int, to as int);
        assert forall|i: int| 0 <= i < sb.len() implies sb[i] == db[i] by {
            assert(s.take(n as int)[from + i] == s[from + i]);
            assert(d.take(n as int)[from + i] == d[from + i]);
        }
        assert(sb =~= db);
        assert(!block_differs(s, d, block_size, n, j));
    }
}

/// A run that starts with nothing compared is in step, and so ends in step
/// where its buffer holds a whole number of blocks and its destination is
/// read from the first byte.
pub proof fn lemma_aligned_run(
    source: Seq<u8>,
    source_cursor: nat,
    dest: Seq<u8>,
    block_size: nat,
    buffer_size: nat,
    write: bool,
)
    requires
        block_size > 0,
        buffer_size > 0,
        buffer_size % block_size == 0,
    ensures
        in_step(
            unread(source, source_cursor),
            dest,
            block_size,
            least(unread(source, source_cursor).len(), dest.len()),
            write,
            least(unread(source, source_cursor).len(), dest.len()),
            run_model(source, source_cursor, dest, 0, block_size, buffer_size, write).tally,
        ),
        orderly(
            run_model(source, source_cursor, dest, 0, block_size, buffer_size, write).tally,
            block_size,
        ),
{
    reveal(in_step);
    let s = unread(source, source_cursor);
    let n = least(s.len(), dest.len());
    assert(0 == 0 * block_size) by (nonlinear_arith);
    assert(in_step(s, dest, block_size, n, write, 0, fresh(dest)));
    lemma_run_in_step(source, source_cursor, dest, block_size, buffer_size, write, 0, fresh(dest));
    lemma_run_orderly(source, source_cursor, 0, block_size, buffer_size, write, fresh(dest));
}

/// A run that writes nothing leaves the destination as it was, so the same
/// run on the same streams, rewound to where they stood, ends exactly where
/// the first did: with the same counters and the same list of blocks.
pub proof fn law_diff_is_repeatable(
    source: Seq<u8>,
    source_cursor: nat,
    dest: Seq<u8>,
    dest_cursor: nat,
    block_size: nat,
    buffer_size: nat,
)
    requires
        block_size > 0,
        buffer_size > 0,
    ensures
        ({
            let first = run_model(
                source,
                source_cursor,
                dest,
                dest_cursor,
                block_size,
                buffer_size,
                false,
            );
            let second = run_model(
                source,
                source_cursor,
                first.tally.dest,
                dest_cursor,
                block_size,
                buffer_size,
                false,
            );
            &&& first.tally.dest == dest
            &&& second == first
        }),
{
    lemma_run_orderly(
        source,
        source_cursor,
        dest_cursor,
        block_size,
        buffer_size,
        false,
        fresh(dest),
    );
}

/// After a writing run, the destination holds the source's bytes over the
/// part that both streams have and its own bytes beyond; its length is
/// unchanged. A second writing run finds no differing block and leaves the
/// destination as the first left it.
///
/// This holds where the buffer holds a whole number of blocks and the
/// destination is read from its first byte.
pub proof fn law_sync_is_idempotent(
    source: Seq<u8>,
    source_cursor: nat,
    dest: Seq<u8>,
    block_size: nat,
    buffer_size: nat,
)
    requires
        block_size > 0,
        buffer_size > 0,
        buffer_size % block_size == 0,
    ensures
        ({
            let s = unread(source, source_cursor);
            let n = least(s.len(), dest.len());
            let first = run_model(source, source_cursor, dest, 0, block_size, buffer_size, true).tally;
            let second = run_model(
                source,
                source_cursor,
                first.dest,
                0,
                block_size,
                buffer_size,
                true,
            ).tally;
            &&& first.dest == s.take(n as int) + dest.skip(n as int)
            &&& second.differing.len() == 0
            &&& second.differing_bytes == 0
            &&& second.dest == first.dest
            &&& second.bytes == first.bytes
            &&& second.blocks == first.blocks
        }),
{
    reveal(in_step);
    let s = unread(source, source_cursor);
    let n = least(s.len(), dest.len());
    let first = run_model(source, source_cursor, dest, 0, block_size, buffer_size, true).tally;
    lemma_aligned_run(source, source_cursor, dest, block_size, buffer_size, true);
    assert(first.dest =~= s.take(n as int) + dest.skip(n as int));
    let second = run_model(
        source,
        source_cursor,
        first.dest,
        0,
        block_size,
        buffer_size,
        true,
    ).tally;
    lemma_aligned_run(source, source_cursor, first.dest, block_size, buffer_size, true);
    assert(s.take(n as int) =~= first.dest.take(n as int));
    assert(second.blocks == 0 || (second.blocks - 1) * block_size < n) by (nonlinear_arith)
        requires
            covers(second.blocks, n, block_size, n),
            block_size > 0,
    ;
    lemma_nothing_listed(s, first.dest, block_size, n, second.blocks);
    assert(second.dest =~= first.dest);
    lemma_covers_once(first.blocks, second.blocks, n, block_size, n);
}

/// A dry run counts exactly what a writing run counts, finds the same blocks
/// to differ, and leaves the destination as it was.
///
/// The counts agree where the buffer holds a whole number of blocks and the
/// destination is read from its first byte.
pub proof fn law_dry_run_counts_the_same(
    source: Seq<u8>,
    source_cursor: nat,
    dest: Seq<u8>,
    block_size: nat,
    buffer_size: nat,
)
    requires
        block_size > 0,
        buffer_size > 0,
        buffer_size % block_size == 0,
    ensures
        ({
            let dry = run_model(source, source_cursor, dest, 0, block_size, buffer_size, false).tally;
            let wet = run_model(source, source_cursor, dest, 0, block_size, buffer_size, true).tally;
            &&& dry.dest == dest
            &&& dry.blocks == wet.blocks
            &&& dry.bytes == wet.bytes
            &&& dry.differing == wet.differing
            &&& dry.differing_bytes == wet.differing_bytes
        }),
{
    reveal(in_step);
    let s = unread(source, source_cursor);
    let n = least(s.len(), dest.len());
    let dry = run_model(source, source_cursor, dest, 0, block_size, buffer_size, false).tally;
    let wet = run_model(source, source_cursor, dest, 0, block_size, buffer_size, true).tally;
    lemma_aligned_run(source, source_cursor, dest, block_size, buffer_size, false);
    lemma_aligned_run(source, source_cursor, dest, block_size, buffer_size, true);
    lemma_covers_once(dry.blocks, wet.blocks, n, block_size, n);
}

/// A run compares exactly the bytes that both streams hold, in blocks that
/// are all whole but possibly the last: the blocks before the last end
/// within the shorter stream, and all blocks together reach its end.
///
/// This holds where the buffer holds a whole number of blocks and the
/// destination is read from its first byte.
pub proof fn law_coverage(
    source: Seq<u8>,
    source_cursor: nat,
    dest: Seq<u8>,
    block_size: nat,
    buffer_size: nat,
    write: bool,
)
    requires
        block_size > 0,
        buffer_size > 0,
        buffer_size % block_size == 0,
    ensures
        ({
            let n = least(unread(source, source_cursor).len(), dest.len());
            let end = run_model(source, source_cursor, dest, 0, block_size, buffer_size, write).tally;
            &&& end.bytes == n
            &&& end.dest.len() == dest.len()
            &&& end.blocks * block_size >= n
            &&& end.blocks > 0 ==> (end.blocks - 1) * block_size < n
            &&& n == 0 ==> end.blocks == 0
        }),
{
    reveal(in_step);
    let n = least(unread(source, source_cursor).len(), dest.len());
    let end = run_model(source, source_cursor, dest, 0, block_size, buffer_size, write).tally;
    lemma_aligned_run(source, source_cursor, dest, block_size, buffer_size, write);
    assert(end.blocks * block_size >= n && (end.blocks > 0 ==> (end.blocks - 1) * block_size < n)
        && (n == 0 ==> end.blocks == 0)) by (nonlinear_arith)
        requires
            covers(end.blocks, n, block_size, n),
            block_size > 0,
    ;
}

/// A run that writes nothing compares exactly as many bytes as the shorter of
/// the two unread parts holds, whatever the sizes of block and buffer, and
/// leaves the destination as it was.
pub proof fn law_read_only_coverage(
    source: Seq<u8>,
    source_cursor: nat,
    dest: Seq<u8>,
    dest_cursor: nat,
    block_size: nat,
    buffer_size: nat,
)
    requires
        block_size > 0,
        buffer_size > 0,
    ensures
        run_model(
            source,
            source_cursor,
            dest,
            dest_cursor,
            block_size,
            buffer_size,
            false,
        ).tally.bytes == least(unread(source, source_cursor).len(), unread(dest, dest_cursor).len()),
        run_model(
            source,
            source_cursor,
            dest,
            dest_cursor,
            block_size,
            buffer_size,
            false,
        ).tally.dest == dest,
{
    lemma_run_orderly(
        source,
        source_cursor,
        dest_cursor,
        block_size,
        buffer_size,
        false,
        fresh(dest),
    );
}

/// Every run ends at an orderly tally: no more differing blocks or bytes
/// than compared ones, every listed block of one to `block_size` bytes and at
/// its ordinal times `block_size`, the list in ascending order.
pub proof fn law_tally_is_orderly(
    source: Seq<u8>,
    source_cursor: nat,
    dest: Seq<u8>,
    dest_cursor: nat,
    block_size: nat,
    buffer_size: nat,
    write: bool,
)
    requires
        block_size > 0,
        buffer_size > 0,
    ensures
        orderly(
            run_model(
                source,
                source_cursor,
                dest,
                dest_cursor,
                block_size,
                buffer_size,
                write,
            ).tally,
            block_size,
        ),
{
    lemma_run_orderly(
        source,
        source_cursor,
        dest_cursor,
        block_size,
        buffer_size,
        write,
        fresh(dest),
    );
}

/// Every block that a run lists lies at its ordinal times the block size,
/// within the bytes that both streams hold, and the source's bytes there
/// differ from those the destination held when the run began.
///
/// This holds where the buffer holds a whole number of blocks and the
/// destination is read from its first byte.
pub proof fn law_listed_blocks_differ(
    source: Seq<u8>,
    source_cursor: nat,
    dest: Seq<u8>,
    block_size: nat,
    buffer_size: nat,
    write: bool,
)
    requires
        block_size > 0,
        buffer_size > 0,
        buffer_size % block_size == 0,
    ensures
        ({
            let s = unread(source, source_cursor);
            let n = least(s.len(), dest.len());
            let end = run_model(source, source_cursor, dest, 0, block_size, buffer_size, write).tally;
            forall|i: int|
                0 <= i < end.differing.len() ==> {
                    let span = #[trigger] end.differing[i];
                    &&& span.byte_offset == span.index * block_size
                    &&& span.byte_offset + span.size <= n
                    &&& piece(s, span.byte_offset, span.size) != piece(
                        dest,
                        span.byte_offset,
                        span.size,
                    )
                }
        }),
{
    reveal(in_step);
    let s = unread(source, source_cursor);
    let n = least(s.len(), dest.len());
    let end = run_model(source, source_cursor, dest, 0, block_size, buffer_size, write).tally;
    lemma_aligned_run(source, source_cursor, dest, block_size, buffer_size, write);
    assert(end.blocks == 0 || (end.blocks - 1) * block_size < n) by (nonlinear_arith)
        requires
            covers(end.blocks, n, block_size, n),
            block_size > 0,
    ;
    lemma_listed_blocks_differ(s, dest, block_size, n, end.blocks);
}

/// A round that writes nothing leaves the destination alone.
pub proof fn lemma_window_reads_only(t: Tally, a: Seq<u8>, b: Seq<u8>, block_size: nat, from: nat)
    ensures
        rest_of_window(t, a, b, block_size, false, from).dest == t.dest,
    decreases a.len() - from,
{
    if from < a.len() && block_size > 0 {
        let size = least(block_size, (a.len() - from) as nat);
        lemma_window_reads_only(
            compared(t, piece(a, from, size), piece(b, from, size), block_size, false),
            a,
            b,
            block_size,
            from + size,
        );
    }
}

/// Whether byte `i` lies in one of the blocks of `list`.
pub open spec fn listed(list: Seq<BlockSpan>, i: int) -> bool {
    exists|j: int|
        0 <= j < list.len() && (#[trigger] list[j]).byte_offset <= i < list[j].byte_offset
            + list[j].size
}

/// Whether `content` differs from `orig` only within the blocks of `list`:
/// every other byte is as it was in `orig`, or zero where `orig` did not
/// reach, and `content` is longer than `orig` only as far as a listed block
/// reaches.
#[verifier::opaque]
pub open spec fn changed_only_in(orig: Seq<u8>, content: Seq<u8>, list: Seq<BlockSpan>) -> bool {
    &&& content.len() >= orig.len()
    &&& content.len() == orig.len() || listed(list, content.len() - 1)
    &&& forall|i: int|
        0 <= i < content.len() && !listed(list, i) ==> #[trigger] content[i] == if i
            < orig.len() {
            orig[i]
        } else {
            0u8
        }
}

/// Whether tally `t` holds a destination that differs from `orig` only
/// within the blocks it lists.
pub open spec fn touched_only_where_listed(orig: Seq<u8>, t: Tally) -> bool {
    changed_only_in(orig, t.dest, t.differing)
}

/// What has not changed has changed only within the blocks of any list.
pub proof fn lemma_nothing_changed(orig: Seq<u8>, list: Seq<BlockSpan>)
    ensures
        changed_only_in(orig, orig, list),
{
    reveal(changed_only_in);
}

/// What has changed only within the blocks of a list has changed only within
/// the blocks of every list that continues it.
pub proof fn lemma_listing_grows(
    orig: Seq<u8>,
    content: Seq<u8>,
    shorter: Seq<BlockSpan>,
    longer: Seq<BlockSpan>,
)
    requires
        changed_only_in(orig, content, shorter),
        shorter.len() <= longer.len(),
        forall|i: int| 0 <= i < shorter.len() ==> longer[i] == shorter[i],
    ensures
        changed_only_in(orig, content, longer),
{
    reveal(changed_only_in);
    assert forall|i: int| listed(shorter, i) implies listed(longer, i) by {
        let j = choose|j: int|
            0 <= j < shorter.len() && (#[trigger] shorter[j]).byte_offset <= i
                < shorter[j].byte_offset + shorter[j].size;
        assert(longer[j] == shorter[j]);
    }
}

/// Laying the first bytes of a differing block over the destination, where
/// the block is to go, changes the destination only within that block.
pub proof fn lemma_part_stays_listed(
    orig: Seq<u8>,
    t: Tally,
    s: Seq<u8>,
    d: Seq<u8>,
    block_size: nat,
    part: Seq<u8>,
)
    requires
        touched_only_where_listed(orig, t),
        s != d,
        part.len() <= s.len(),
    ensures
        changed_only_in(
            orig,
            overlaid(t.dest, t.blocks * block_size, part),
            compared(t, s, d, block_size, true).differing,
        ),
{
    reveal(changed_only_in);
    let next = compared(t, s, d, block_size, true);
    let at = t.blocks * block_size;
    let after = overlaid(t.dest, at, part);
    let last = t.differing.len() as int;
    assert(next.differing[last].byte_offset == at && next.differing[last].size == s.len());
    assert forall|i: int| listed(t.differing, i) implies listed(next.differing, i) by {
        let j = choose|j: int|
            0 <= j < t.differing.len() && (#[trigger] t.differing[j]).byte_offset <= i
                < t.differing[j].byte_offset + t.differing[j].size;
        assert(next.differing[j] == t.differing[j]);
    }
    assert forall|i: int| at <= i < at + s.len() implies listed(next.differing, i) by {
        assert(next.differing[last].byte_offset <= i < next.differing[last].byte_offset
            + next.differing[last].size);
    }
    if after.len() != orig.len() {
        if after.len() == t.dest.len() {
            assert(listed(t.differing, t.dest.len() - 1));
        } else {
            assert(after.len() == at + part.len());
        }
    }
}

/// One more block keeps the destination changed only where blocks are
/// listed.
pub proof fn lemma_block_touches_listed(
    orig: Seq<u8>,
    t: Tally,
    s: Seq<u8>,
    d: Seq<u8>,
    block_size: nat,
    write: bool,
)
    requires
        touched_only_where_listed(orig, t),
        s.len() > 0,
    ensures
        touched_only_where_listed(orig, compared(t, s, d, block_size, write)),
{
    reveal(changed_only_in);
    let next = compared(t, s, d, block_size, write);
    if s != d {
        let at = t.blocks * block_size;
        let last = t.differing.len() as int;
        assert(next.differing[last].byte_offset == at && next.differing[last].size == s.len());
        assert forall|i: int| listed(t.differing, i) implies listed(next.differing, i) by {
            let j = choose|j: int|
                0 <= j < t.differing.len() && (#[trigger] t.differing[j]).byte_offset <= i
                    < t.differing[j].byte_offset + t.differing[j].size;
            assert(next.differing[j] == t.differing[j]);
        }
        assert forall|i: int| at <= i < at + s.len() implies listed(next.differing, i) by {
            assert(next.differing[last].byte_offset <= i < next.differing[last].byte_offset
                + next.differing[last].size);
        }
        if write {
            assert(next.dest == overlaid(t.dest, at, s));
            if next.dest.len() != orig.len() {
                if next.dest.len() == t.dest.len() {
                    assert(listed(t.differing, t.dest.len() - 1));
                } else {
                    assert(next.dest.len() == at + s.len());
                }
            }
        }
    }
}

proof fn lemma_window_touches_listed(
    orig: Seq<u8>,
    t: Tally,
    a: Seq<u8>,
    b: Seq<u8>,
    block_size: nat,
    write: bool,
    from: nat,
)
    requires
        touched_only_where_listed(orig, t),
    ensures
        touched_only_where_listed(orig, rest_of_window(t, a, b, block_size, write, from)),
    decreases a.len() - from,
{
    if from < a.len() && block_size > 0 {
        let size = least(block_size, (a.len() - from) as nat);
        lemma_block_touches_listed(
            orig,
            t,
            piece(a, from, size),
            piece(b, from, size),
            block_size,
            write,
        );
        lemma_window_touches_listed(
            orig,
            compared(t, piece(a, from, size), piece(b, from, size), block_size, write),
            a,
            b,
            block_size,
            write,
            from + size,
        );
    }
}

proof fn lemma_run_touches_listed(
    orig: Seq<u8>,
    source: Seq<u8>,
    source_cursor: nat,
    dest_cursor: nat,
    block_size: nat,
    buffer_size: nat,
    write: bool,
    t: Tally,
)
    requires
        touched_only_where_listed(orig, t),
    ensures
        touched_only_where_listed(
            orig,
            run_rest(source, source_cursor, dest_cursor, block_size, buffer_size, write, t).tally,
        ),
    decreases unread(source, source_cursor).len(),
{
    let a = front(unread(source, source_cursor), buffer_size);
    let b = front(unread(t.dest, dest_cursor), buffer_size);
    if a.len() == 0 || b.len() == 0 {
    } else {
        let both = least(a.len(), b.len());
        lemma_window_touches_listed(
            orig,
            t,
            a.take(both as int),
            b.take(both as int),
            block_size,
            write,
            0,
        );
        lemma_run_touches_listed(
            orig,
            source,
            source_cursor + a.len(),
            dest_cursor + b.len(),
            block_size,
            buffer_size,
            write,
            rest_of_window(t, a.take(both as int), b.take(both as int), block_size, write, 0),
        );
    }
}

/// Whatever the sizes of block and buffer, a run changes the destination
/// only within the blocks it lists, each at its ordinal times the block
/// size. Where it lists none, the destination is as it was.
pub proof fn law_writes_stay_in_listed_blocks(
    source: Seq<u8>,
    source_cursor: nat,
    dest: Seq<u8>,
    dest_cursor: nat,
    block_size: nat,
    buffer_size: nat,
    write: bool,
)
    ensures
        touched_only_where_listed(
            dest,
            run_model(
                source,
                source_cursor,
                dest,
                dest_cursor,
                block_size,
                buffer_size,
                write,
            ).tally,
        ),
        run_model(
            source,
            source_cursor,
            dest,
            dest_cursor,
            block_size,
            buffer_size,
            write,
        ).tally.differing.len() == 0 ==> run_model(
            source,
            source_cursor,
            dest,
            dest_cursor,
            block_size,
            buffer_size,
            write,
        ).tally.dest == dest,
{
    reveal(changed_only_in);
    lemma_run_touches_listed(
        dest,
        source,
        source_cursor,
        dest_cursor,
        block_size,
        buffer_size,
        write,
        fresh(dest),
    );
    let end = run_model(
        source,
        source_cursor,
        dest,
        dest_cursor,
        block_size,
        buffer_size,
        write,
    ).tally;
    if end.differing.len() == 0 {
        assert(end.dest =~= dest);
    }
}

} // verus!
