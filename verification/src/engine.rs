//! The run itself: refill, compare block by block, report or patch.

use vstd::prelude::*;
use vstd::slice::slice_subrange;
use crate::fill::fill_buf;
use crate::model::{
    Outcome,
    Tally,
    compared,
    front,
    least,
    piece,
    rest_of_window,
    run_model,
    run_rest,
};
use crate::stream::{ByteSource, IoFault, PatchTarget, overlaid, unread};
use crate::laws::{
    changed_only_in,
    fresh,
    in_step,
    law_dry_run_counts_the_same,
    law_read_only_coverage,
    law_sync_is_idempotent,
    law_tally_is_orderly,
    lemma_block_in_step,
    lemma_block_touches_listed,
    lemma_fresh_in_step,
    lemma_in_step_means,
    lemma_listing_grows,
    lemma_nothing_changed,
    lemma_part_stays_listed,
    lemma_run_keeps,
    lemma_window_in_step,
    lemma_window_keeps,
    orderly,
    touched_only_where_listed,
};
use crate::layout::{block_total, differing_upto, law_differing_blocks_are_listed};
use crate::types::{
    BlockDescriptor,
    BlockSpan,
    Config,
    ConfigError,
    Mode,
    RunReport,
    RunStatistics,
    Side,
    SyncError,
    spans,
};

verus! {

/// Whether the counters, the kept descriptors and the destination's bytes
/// are those of tally `t`.
spec fn tallied(
    stats: RunStatistics,
    kept: Seq<BlockDescriptor>,
    content: Seq<u8>,
    mode: Mode,
    t: Tally,
) -> bool {
    &&& stats.blocks_compared == t.blocks
    &&& stats.bytes_compared == t.bytes
    &&& stats.blocks_differing == t.differing.len()
    &&& stats.bytes_differing == t.differing_bytes
    &&& content == t.dest
    &&& if mode == Mode::Diff {
        spans(kept) == t.differing
    } else {
        kept.len() == 0
    }
}

/// Whether `list` holds a block of ordinal `index` whose byte offset does not
/// fit in 64 bits.
pub open spec fn holds_overflow(list: Seq<BlockSpan>, index: nat) -> bool {
    exists|i: int|
        0 <= i < list.len() && (#[trigger] list[i]).index == index && list[i].byte_offset
            > u64::MAX
}

/// Whether the byte offset of every block in `list` fits in 64 bits.
pub open spec fn offsets_fit(list: Seq<BlockSpan>) -> bool {
    forall|i: int| 0 <= i < list.len() ==> (#[trigger] list[i]).byte_offset <= u64::MAX
}

/// Tells whether two buffers hold the same bytes from `from` up to `to`.
pub fn blocks_equal(a: &Vec<u8>, b: &Vec<u8>, from: usize, to: usize) -> (same: bool)
    requires
        from <= to <= a.len(),
        to <= b.len(),
    ensures
        same == (a@.subrange(from as int, to as int) == b@.subrange(from as int, to as int)),
{
    let mut i = from;
    while i < to
        invariant
            from <= i <= to,
            to <= a.len(),
            to <= b.len(),
            forall|k: int| from <= k < i ==> a@[k] == b@[k],
        decreases to - i,
    {
        if a[i] != b[i] {
            proof {
                let x = a@.subrange(from as int, to as int);
                let y = b@.subrange(from as int, to as int);
                assert(x[i - from] != y[i - from]);
            }
            return false;
        }
        i = i + 1;
    }
    assert(a@.subrange(from as int, to as int) =~= b@.subrange(from as int, to as int));
    true
}

/// Judges what a write of `expected` bytes came to: a fault of the stream is
/// a failed write, and fewer bytes than expected are a short write.
pub fn written_fully(outcome: Result<usize, IoFault>, expected: usize) -> (r: Result<
    (),
    SyncError,
>)
    ensures
        match outcome {
            Ok(n) => if n == expected {
                r == Ok::<(), SyncError>(())
            } else {
                r == Err::<(), SyncError>(SyncError::ShortWrite { expected, written: n })
            },
            Err(fault) => r == Err::<(), SyncError>(SyncError::Write(fault)),
        },
{
    match outcome {
        Ok(n) => if n == expected {
            Ok(())
        } else {
            Err(SyncError::ShortWrite { expected, written: n })
        },
        Err(fault) => Err(SyncError::Write(fault)),
    }
}

/// Overwrites the destination at byte `offset` with `data` and puts the cursor
/// back where it stood, so that the next read goes on as if nothing had been
/// written.
///
/// A fault of the stream and a write that takes fewer bytes than `data` holds
/// both end the attempt; the cursor is then left wherever it got to. A failed
/// seek leaves the bytes as they were or, where it was the seek back, as they
/// were to be; a short write leaves the bytes that were taken.
pub fn patch_block<D: PatchTarget>(dest_file: &mut D, offset: u64, data: &[u8]) -> (r: Result<
    (),
    SyncError,
>)
    ensures
        final(dest_file).reliable() == old(dest_file).reliable(),
        match r {
            Ok(_) => {
                &&& final(dest_file).content() == overlaid(
                    old(dest_file).content(),
                    offset as nat,
                    data@,
                )
                &&& final(dest_file).cursor() == old(dest_file).cursor()
                &&& offset + data@.len() <= u64::MAX
            },
            Err(e) => {
                &&& !old(dest_file).reliable() || offset + data@.len() > old(
                    dest_file,
                ).content().len()
                &&& match e {
                    SyncError::Seek(_) => {
                        ||| final(dest_file).content() == old(dest_file).content()
                        ||| final(dest_file).content() == overlaid(
                            old(dest_file).content(),
                            offset as nat,
                            data@,
                        )
                    },
                    SyncError::Write(_) => true,
                    SyncError::ShortWrite { expected, written } => {
                        &&& expected == data@.len()
                        &&& written < expected
                        &&& final(dest_file).content() == overlaid(
                            old(dest_file).content(),
                            offset as nat,
                            data@.take(written as int),
                        )
                    },
                    _ => false,
                }
            },
        },
{
    let resume = match dest_file.position() {
        Ok(p) => p,
        Err(fault) => {
            return Err(SyncError::Seek(fault));
        },
    };
    match dest_file.seek_to(offset) {
        Ok(_) => {},
        Err(fault) => {
            return Err(SyncError::Seek(fault));
        },
    }
    let outcome = dest_file.write(data);
    proof {
        if outcome is Ok && outcome->Ok_0 == data@.len() {
            assert(data@.take(data@.len() as int) == data@);
        }
    }
    match written_fully(outcome, data.len()) {
        Ok(_) => {},
        Err(e) => {
            return Err(e);
        },
    }
    match dest_file.seek_to(resume) {
        Ok(_) => Ok(()),
        Err(fault) => Err(SyncError::Seek(fault)),
    }
}

/// Whether the counters can still grow by the bytes that a round may hold.
spec fn roomy(stats: RunStatistics, more: nat) -> bool {
    &&& stats.blocks_differing <= stats.blocks_compared <= stats.bytes_compared
    &&& stats.bytes_differing <= stats.bytes_compared
    &&& stats.bytes_compared + more <= u64::MAX
}

/// Where a round stands: the destination's bytes `orig` as the run found
/// them and, for a run that is known to be in step, the unread source `s`
/// and the destination `d` as the run found them, the number `n` of bytes
/// both hold, the byte `base` at which the round starts, and the number
/// `left` of whole blocks in a round that does not end the run.
struct Footing {
    orig: Seq<u8>,
    steady: bool,
    s: Seq<u8>,
    d: Seq<u8>,
    n: nat,
    base: nat,
    left: nat,
}

/// Whether the buffers and the tally `t` are those of a round of `len` bytes
/// that stands as `f` says.
spec fn on_footing(
    f: Footing,
    src_buf: Seq<u8>,
    dest_buf: Seq<u8>,
    len: nat,
    block_size: nat,
    write: bool,
    t: Tally,
) -> bool {
    &&& f.n <= f.s.len()
    &&& f.n <= f.d.len()
    &&& f.base + len <= f.n
    &&& f.base + len == f.n || len == f.left * block_size
    &&& src_buf.take(len as int) == piece(f.s, f.base, len)
    &&& dest_buf.take(len as int) == piece(f.d, f.base, len)
    &&& in_step(f.s, f.d, block_size, f.n, write, f.base, t)
}

/// Walks the first `len` bytes of the two buffers block by block, counts, and
/// reports or patches each block that differs.
#[verifier::rlimit(30)]
fn sync_window<D: PatchTarget>(
    config: &Config,
    src_buf: &Vec<u8>,
    dest_buf: &Vec<u8>,
    len: usize,
    dest_file: &mut D,
    stats: &mut RunStatistics,
    kept: &mut Vec<BlockDescriptor>,
    Ghost(start): Ghost<Tally>,
    Ghost(f): Ghost<Footing>,
) -> (r: Result<(), SyncError>)
    requires
        config.block_size > 0,
        len <= src_buf.len(),
        len <= dest_buf.len(),
        tallied(*old(stats), old(kept)@, old(dest_file).content(), config.mode, start),
        roomy(*old(stats), len as nat),
        touched_only_where_listed(f.orig, start),
        f.steady ==> on_footing(
            f,
            src_buf@,
            dest_buf@,
            len as nat,
            config.block_size as nat,
            config.writes(),
            start,
        ),
    ensures
        final(dest_file).reliable() == old(dest_file).reliable(),
        !config.writes() ==> final(dest_file).content() == old(dest_file).content(),
        !(r matches Err(SyncError::Write(_))) ==> changed_only_in(
            f.orig,
            final(dest_file).content(),
            rest_of_window(
                start,
                src_buf@.take(len as int),
                dest_buf@.take(len as int),
                config.block_size as nat,
                config.writes(),
                0,
            ).differing,
        ),
        match r {
            Ok(_) => {
                &&& tallied(
                    *final(stats),
                    final(kept)@,
                    final(dest_file).content(),
                    config.mode,
                    rest_of_window(
                        start,
                        src_buf@.take(len as int),
                        dest_buf@.take(len as int),
                        config.block_size as nat,
                        config.writes(),
                        0,
                    ),
                )
                &&& final(dest_file).cursor() == old(dest_file).cursor()
                &&& roomy(*final(stats), 0)
                &&& final(stats).bytes_compared == old(stats).bytes_compared + len
            },
            Err(e) => match e {
                SyncError::OffsetOverflow { index } => {
                    &&& config.locates()
                    &&& !f.steady
                    &&& holds_overflow(
                        rest_of_window(
                            start,
                            src_buf@.take(len as int),
                            dest_buf@.take(len as int),
                            config.block_size as nat,
                            config.writes(),
                            0,
                        ).differing,
                        index as nat,
                    )
                },
                SyncError::Seek(_) | SyncError::Write(_) | SyncError::ShortWrite { .. } => {
                    &&& config.writes()
                    &&& !old(dest_file).reliable() || !f.steady
                },
                _ => false,
            },
        },
{
    let ghost a = src_buf@.take(len as int);
    let ghost b = dest_buf@.take(len as int);
    let ghost block = config.block_size as nat;
    let ghost write = config.writes();
    let ghost whole = rest_of_window(start, a, b, block, write, 0);
    let ghost mut t = start;
    let ghost mut left = f.left;
    let mut offs: usize = 0;
    while offs < len
        invariant
            offs <= len,
            len <= src_buf.len(),
            len <= dest_buf.len(),
            config.block_size > 0,
            a == src_buf@.take(len as int),
            b == dest_buf@.take(len as int),
            block == config.block_size as nat,
            write == config.writes(),
            whole == rest_of_window(start, a, b, block, write, 0),
            rest_of_window(t, a, b, block, write, offs as nat) == whole,
            tallied(*stats, kept@, dest_file.content(), config.mode, t),
            roomy(*stats, (len - offs) as nat),
            stats.bytes_compared == old(stats).bytes_compared + offs,
            dest_file.cursor() == old(dest_file).cursor(),
            dest_file.reliable() == old(dest_file).reliable(),
            !write ==> dest_file.content() == old(dest_file).content(),
            touched_only_where_listed(f.orig, t),
            f.steady ==> {
                &&& f.n <= f.s.len()
                &&& f.n <= f.d.len()
                &&& f.base + len <= f.n
                &&& f.base + len == f.n || len - offs == left * block
                &&& a == piece(f.s, f.base, len as nat)
                &&& b == piece(f.d, f.base, len as nat)
                &&& in_step(f.s, f.d, block, f.n, write, f.base + offs as nat, t)
            },
        decreases len - offs,
    {
        let size = if config.block_size < len - offs {
            config.block_size
        } else {
            len - offs
        };
        let same = blocks_equal(src_buf, dest_buf, offs, offs + size);
        let ghost s = piece(a, offs as nat, size as nat);
        let ghost d = piece(b, offs as nat, size as nat);
        let ghost next = compared(t, s, d, block, write);
        proof {
            assert(s == src_buf@.subrange(offs as int, offs + size));
            assert(d == dest_buf@.subrange(offs as int, offs + size));
            assert(size == least(block, (a.len() - offs) as nat));
            assert(rest_of_window(next, a, b, block, write, (offs + size) as nat) == whole);
            lemma_block_touches_listed(f.orig, t, s, d, block, write);
            if f.steady {
                let p = f.base + offs as nat;
                if f.base + len != f.n {
                    assert(left >= 1 && left * block >= block && (left - 1) * block == left
                        * block - block) by (nonlinear_arith)
                        requires
                            left * block > 0,
                            block > 0,
                    ;
                }
                assert(size == least(block, (f.n - p) as nat));
                assert(s == piece(f.s, p, size as nat));
                assert(d == piece(f.d, p, size as nat));
                lemma_block_in_step(f.s, f.d, block, f.n, write, p, t);
                left = (left - 1) as nat;
            }
        }
        if !same {
            if config.needs_offsets() {
                let index = stats.blocks_compared;
                let offset = match index.checked_mul(config.block_size as u64) {
                    Some(o) => o,
                    None => {
                        proof {
                            lemma_window_keeps(t, a, b, block, write, offs as nat);
                            lemma_window_keeps(next, a, b, block, write, (offs + size) as nat);
                            lemma_listing_grows(
                                f.orig,
                                dest_file.content(),
                                t.differing,
                                whole.differing,
                            );
                            let at = t.differing.len() as int;
                            assert(next.differing[at].index == index);
                            assert(next.differing[at].byte_offset == index * block);
                            assert(whole.differing[at] == next.differing[at]);
                            assert(holds_overflow(whole.differing, index as nat));
                        }
                        return Err(SyncError::OffsetOverflow { index });
                    },
                };
                match config.mode {
                    Mode::Diff => {
                        kept.push(BlockDescriptor { index, byte_offset: offset, size });
                        assert(spans(kept@) =~= next.differing);
                    },
                    Mode::Sync => {
                        let data = slice_subrange(src_buf.as_slice(), offs, offs + size);
                        match patch_block(dest_file, offset, data) {
                            Ok(_) => {},
                            Err(e) => {
                                proof {
                                    let part = match e {
                                        SyncError::ShortWrite { expected, written } => data@.take(
                                            written as int,
                                        ),
                                        _ => if dest_file.content() == t.dest {
                                            Seq::<u8>::empty()
                                        } else {
                                            data@
                                        },
                                    };
                                    if !(e is Write) {
                                        lemma_part_stays_listed(f.orig, t, s, d, block, part);
                                        lemma_window_keeps(
                                            next,
                                            a,
                                            b,
                                            block,
                                            write,
                                            (offs + size) as nat,
                                        );
                                        lemma_listing_grows(
                                            f.orig,
                                            dest_file.content(),
                                            next.differing,
                                            whole.differing,
                                        );
                                    }
                                }
                                return Err(e);
                            },
                        }
                    },
                }
            }
            stats.blocks_differing = stats.blocks_differing + 1;
            stats.bytes_differing = stats.bytes_differing + size as u64;
        }
        stats.blocks_compared = stats.blocks_compared + 1;
        stats.bytes_compared = stats.bytes_compared + size as u64;
        proof {
            t = next;
        }
        offs = offs + size;
    }
    Ok(())
}

/// Where a run with the settings `config` ends, for a source that holds
/// `source` and stands at `source_cursor`, and a destination that holds
/// `dest` and stands at `dest_cursor`.
pub open spec fn expected(
    config: Config,
    source: Seq<u8>,
    source_cursor: nat,
    dest: Seq<u8>,
    dest_cursor: nat,
) -> Outcome {
    run_model(
        source,
        source_cursor,
        dest,
        dest_cursor,
        config.block_size as nat,
        config.buffer_size as nat,
        config.writes(),
    )
}

/// Whether `report` tells what tally `t` holds: the four counters, and in
/// `Diff` mode the differing blocks, which `Sync` mode does not keep.
pub open spec fn reports(report: RunReport, mode: Mode, t: Tally) -> bool {
    &&& report.stats.blocks_compared == t.blocks
    &&& report.stats.bytes_compared == t.bytes
    &&& report.stats.blocks_differing == t.differing.len()
    &&& report.stats.bytes_differing == t.differing_bytes
    &&& if mode == Mode::Diff {
        spans(report.differing@) == t.differing
    } else {
        report.differing@.len() == 0
    }
}

/// Whether a run with the settings `config` on these streams is one whose
/// blocks lie where their ordinals say: the buffer holds a whole number of
/// blocks and the destination is read from its first byte.
pub open spec fn steady(config: Config, dest_cursor: nat) -> bool {
    config.aligned() && config.buffer_size > 0 && dest_cursor == 0
}

/// Runs the rounds of a run whose settings have been found good.
#[verifier::rlimit(50)]
fn run_rounds<S: ByteSource, D: PatchTarget>(
    config: &Config,
    src_file: &mut S,
    dest_file: &mut D,
) -> (r: Result<RunReport, SyncError>)
    requires
        config.block_size > 0,
        config.buffer_size > 0,
    ensures
        final(src_file).content() == old(src_file).content(),
        final(src_file).reliable() == old(src_file).reliable(),
        final(dest_file).reliable() == old(dest_file).reliable(),
        !config.writes() ==> final(dest_file).content() == old(dest_file).content(),
        !(r matches Err(SyncError::Write(_))) ==> changed_only_in(
            old(dest_file).content(),
            final(dest_file).content(),
            expected(
                *config,
                old(src_file).content(),
                old(src_file).cursor(),
                old(dest_file).content(),
                old(dest_file).cursor(),
            ).tally.differing,
        ),
        match r {
            Ok(report) => {
                let end = expected(
                    *config,
                    old(src_file).content(),
                    old(src_file).cursor(),
                    old(dest_file).content(),
                    old(dest_file).cursor(),
                );
                &&& reports(report, config.mode, end.tally)
                &&& final(dest_file).content() == end.tally.dest
                &&& final(src_file).cursor() == end.source_cursor
                &&& final(dest_file).cursor() == end.dest_cursor
            },
            Err(e) => match e {
                SyncError::Config(_) => false,
                SyncError::Read(side, _) => match side {
                    Side::Source => !old(src_file).reliable(),
                    Side::Destination => !old(dest_file).reliable(),
                },
                SyncError::OffsetOverflow { index } => {
                    &&& config.locates()
                    &&& !steady(*config, old(dest_file).cursor())
                    &&& holds_overflow(
                        expected(
                            *config,
                            old(src_file).content(),
                            old(src_file).cursor(),
                            old(dest_file).content(),
                            old(dest_file).cursor(),
                        ).tally.differing,
                        index as nat,
                    )
                },
                SyncError::Seek(_) | SyncError::Write(_) | SyncError::ShortWrite { .. } => {
                    &&& config.writes()
                    &&& !old(dest_file).reliable() || !steady(*config, old(dest_file).cursor())
                },
            },
        },
{
    let mut src_buf: Vec<u8> = vec![0u8; config.buffer_size];
    let mut dest_buf: Vec<u8> = vec![0u8; config.buffer_size];
    let mut stats = RunStatistics {
        blocks_compared: 0,
        blocks_differing: 0,
        bytes_compared: 0,
        bytes_differing: 0,
    };
    let mut kept: Vec<BlockDescriptor> = Vec::new();
    let ghost source = old(src_file).content();
    let ghost source_start = old(src_file).cursor();
    let ghost s0 = unread(source, source_start);
    let ghost d0 = old(dest_file).content();
    let ghost n = least(s0.len(), d0.len());
    let ghost in_lockstep = steady(*config, old(dest_file).cursor());
    let ghost block = config.block_size as nat;
    let ghost buffer = config.buffer_size as nat;
    let ghost write = config.writes();
    let ghost end = expected(
        *config,
        old(src_file).content(),
        old(src_file).cursor(),
        old(dest_file).content(),
        old(dest_file).cursor(),
    );
    let ghost mut t = fresh(d0);
    let ghost mut p: nat = 0;
    proof {
        assert(spans(kept@) =~= t.differing);
        assert(0 == 0 * block) by (nonlinear_arith);
        lemma_fresh_in_step(s0, d0, block, n, write);
        lemma_nothing_changed(d0, t.differing);
    }
    loop
        invariant_except_break
            run_rest(source, src_file.cursor(), dest_file.cursor(), block, buffer, write, t)
                == end,
        invariant
            config.block_size > 0,
            config.buffer_size > 0,
            src_buf.len() == config.buffer_size,
            dest_buf.len() == config.buffer_size,
            block == config.block_size as nat,
            buffer == config.buffer_size as nat,
            write == config.writes(),
            source == old(src_file).content(),
            source_start == old(src_file).cursor(),
            s0 == unread(source, source_start),
            d0 == old(dest_file).content(),
            n == least(s0.len(), d0.len()),
            in_lockstep == steady(*config, old(dest_file).cursor()),
            src_file.content() == source,
            src_file.reliable() == old(src_file).reliable(),
            dest_file.reliable() == old(dest_file).reliable(),
            !write ==> dest_file.content() == old(dest_file).content(),
            tallied(stats, kept@, dest_file.content(), config.mode, t),
            touched_only_where_listed(d0, t),
            roomy(stats, 0),
            stats.bytes_compared <= src_file.cursor(),
            end == expected(
                *config,
                old(src_file).content(),
                old(src_file).cursor(),
                old(dest_file).content(),
                old(dest_file).cursor(),
            ),
            in_lockstep ==> {
                &&& in_step(s0, d0, block, n, write, p, t)
                &&& (p == t.blocks * block && src_file.cursor() == source_start + p
                    && dest_file.cursor() == p) || (p == n && (unread(
                    source,
                    src_file.cursor(),
                ).len() == 0 || unread(dest_file.content(), dest_file.cursor()).len() == 0))
            },
        ensures
            src_file.content() == source,
            src_file.reliable() == old(src_file).reliable(),
            dest_file.reliable() == old(dest_file).reliable(),
            !write ==> dest_file.content() == old(dest_file).content(),
            tallied(stats, kept@, dest_file.content(), config.mode, end.tally),
            touched_only_where_listed(d0, end.tally),
            src_file.cursor() == end.source_cursor,
            dest_file.cursor() == end.dest_cursor,
        decreases unread(source, src_file.cursor()).len(),
    {
        let ghost a = front(unread(source, src_file.cursor()), buffer);
        let ghost b = front(unread(dest_file.content(), dest_file.cursor()), buffer);
        let ghost before = run_rest(
            source,
            src_file.cursor(),
            dest_file.cursor(),
            block,
            buffer,
            write,
            t,
        );
        let ghost source_before = src_file.cursor();
        let ghost dest_before = dest_file.cursor();
        proof {
            if in_lockstep {
                lemma_in_step_means(s0, d0, block, n, write, p, t);
            }
        }
        let src_len = match fill_buf(src_file, &mut src_buf) {
            Ok(n) => n,
            Err(fault) => {
                proof {
                    lemma_run_keeps(source, source_before, dest_before, block, buffer, write, t);
                    lemma_listing_grows(
                        d0,
                        dest_file.content(),
                        t.differing,
                        end.tally.differing,
                    );
                }
                return Err(SyncError::Read(Side::Source, fault));
            },
        };
        let dest_len = match fill_buf(dest_file, &mut dest_buf) {
            Ok(n) => n,
            Err(fault) => {
                proof {
                    lemma_run_keeps(source, source_before, dest_before, block, buffer, write, t);
                    lemma_listing_grows(
                        d0,
                        dest_file.content(),
                        t.differing,
                        end.tally.differing,
                    );
                }
                return Err(SyncError::Read(Side::Destination, fault));
            },
        };
        proof {
            assert(a.len() == src_len);
            assert(b.len() == dest_len);
            assert(src_buf@.take(src_len as int) =~= a);
            assert(dest_buf@.take(dest_len as int) =~= b);
        }
        if src_len == 0 || dest_len == 0 {
            break;
        }
        let both = if src_len < dest_len {
            src_len
        } else {
            dest_len
        };
        proof {
            assert(src_buf@.take(both as int) =~= a.take(both as int));
            assert(dest_buf@.take(both as int) =~= b.take(both as int));
        }
        let ghost next = rest_of_window(
            t,
            a.take(both as int),
            b.take(both as int),
            block,
            write,
            0,
        );
        let ghost source_at = src_file.cursor();
        let ghost dest_at = dest_file.cursor();
        let ghost left = buffer / block;
        let ghost footing = Footing {
            orig: d0,
            steady: in_lockstep,
            s: s0,
            d: d0,
            n,
            base: p,
            left,
        };
        proof {
            assert(before == run_rest(source, source_at, dest_at, block, buffer, write, next));
            if in_lockstep {
                assert(buffer == left * block) by (nonlinear_arith)
                    requires
                        block > 0,
                        buffer % block == 0,
                        left == buffer / block,
                ;
                assert(a =~= piece(s0, p, src_len as nat));
                assert(b =~= piece(d0, p, dest_len as nat));
                assert(a.take(both as int) =~= piece(s0, p, both as nat));
                assert(b.take(both as int) =~= piece(d0, p, both as nat));
            }
        }
        match sync_window(
            config,
            &src_buf,
            &dest_buf,
            both,
            dest_file,
            &mut stats,
            &mut kept,
            Ghost(t),
            Ghost(footing),
        ) {
            Ok(_) => {},
            Err(e) => {
                proof {
                    lemma_run_keeps(source, source_at, dest_at, block, buffer, write, next);
                    if !(e is Write) {
                        lemma_listing_grows(
                            d0,
                            dest_file.content(),
                            next.differing,
                            end.tally.differing,
                        );
                    }
                    if e is OffsetOverflow {
                        let index = e->index;
                        let i = choose|i: int|
                            0 <= i < next.differing.len() && (#[trigger] next.differing[i]).index
                                == index && next.differing[i].byte_offset > u64::MAX;
                        assert(end.tally.differing[i] == next.differing[i]);
                    }
                }
                return Err(e);
            },
        }
        proof {
            if in_lockstep {
                lemma_window_in_step(s0, d0, block, n, write, p, both as nat, 0, left, t);
                p = p + both as nat;
                lemma_in_step_means(s0, d0, block, n, write, p, next);
            }
            t = next;
        }
    }
    Ok(RunReport { differing: kept, stats })
}

/// Compares the two streams block by block from where their cursors stand,
/// up to the end of the shorter one, and reports or patches what differs.
///
/// Both streams are read in rounds of `buffer_size` bytes; a round is walked
/// in blocks of `block_size` bytes, the last of which may be shorter. In
/// `Diff` mode each differing block is listed. In `Sync` mode it is
/// overwritten in the destination at `index * block_size` with the source's
/// bytes, unless `dry_run` is set; the destination's cursor is where reading
/// left it. Either way the four counters are kept.
///
/// What a run comes to is `expected`, the round-by-round account of it. A
/// run that writes nothing compares `block_total` blocks and lists those
/// among them that `differing_upto` names. A run that writes, with a buffer
/// of a whole number of blocks and a destination read from its first byte,
/// leaves the destination equal to the source as far as both reach.
///
/// A zero block or buffer size is refused before anything is read. The first
/// fault of a stream ends the run; blocks written before it stay written.
/// However a run ends, unless a write itself failed, the destination
/// differs from what it was only within blocks that the run lists.
/// On reliable streams a run succeeds whenever it writes nothing and every
/// offset it has to name fits in 64 bits, and whenever its buffer holds a
/// whole number of blocks and its destination is read from the first byte.
pub fn sync_files<S: ByteSource, D: PatchTarget>(
    config: &Config,
    src_file: &mut S,
    dest_file: &mut D,
) -> (r: Result<RunReport, SyncError>)
    ensures
        final(src_file).content() == old(src_file).content(),
        final(src_file).reliable() == old(src_file).reliable(),
        final(dest_file).reliable() == old(dest_file).reliable(),
        !config.writes() ==> final(dest_file).content() == old(dest_file).content(),
        !(r matches Err(SyncError::Write(_))) ==> changed_only_in(
            old(dest_file).content(),
            final(dest_file).content(),
            expected(
                *config,
                old(src_file).content(),
                old(src_file).cursor(),
                old(dest_file).content(),
                old(dest_file).cursor(),
            ).tally.differing,
        ),
        config.block_size == 0 ==> r == Err::<RunReport, SyncError>(
            SyncError::Config(ConfigError::ZeroBlockSize),
        ),
        config.block_size != 0 && config.buffer_size == 0 ==> r == Err::<RunReport, SyncError>(
            SyncError::Config(ConfigError::ZeroBufferSize),
        ),
        match r {
            Ok(report) => {
                let end = expected(
                    *config,
                    old(src_file).content(),
                    old(src_file).cursor(),
                    old(dest_file).content(),
                    old(dest_file).cursor(),
                );
                let s = unread(old(src_file).content(), old(src_file).cursor());
                let d = old(dest_file).content();
                &&& reports(report, config.mode, end.tally)
                &&& orderly(end.tally, config.block_size as nat)
                &&& final(dest_file).content() == end.tally.dest
                &&& final(src_file).cursor() == end.source_cursor
                &&& final(dest_file).cursor() == end.dest_cursor
                &&& !config.writes() || steady(*config, old(dest_file).cursor()) ==> {
                    let unread_dest = unread(d, old(dest_file).cursor());
                    let n = least(s.len(), unread_dest.len());
                    &&& report.stats.bytes_compared == n
                    &&& report.stats.blocks_compared == block_total(
                        n,
                        config.block_size as nat,
                        config.buffer_size as nat,
                    )
                    &&& end.tally.differing == differing_upto(
                        s,
                        unread_dest,
                        config.block_size as nat,
                        config.buffer_size as nat,
                        n,
                        block_total(n, config.block_size as nat, config.buffer_size as nat),
                    )
                    &&& config.writes() ==> final(dest_file).content() == s.take(n as int)
                        + d.skip(n as int)
                }
            },
            Err(e) => match e {
                SyncError::Config(_) => {
                    &&& config.block_size == 0 || config.buffer_size == 0
                    &&& final(src_file).cursor() == old(src_file).cursor()
                    &&& final(dest_file).cursor() == old(dest_file).cursor()
                    &&& final(dest_file).content() == old(dest_file).content()
                },
                SyncError::Read(side, _) => match side {
                    Side::Source => !old(src_file).reliable(),
                    Side::Destination => !old(dest_file).reliable(),
                },
                SyncError::OffsetOverflow { index } => {
                    &&& config.locates()
                    &&& !steady(*config, old(dest_file).cursor())
                    &&& holds_overflow(
                        expected(
                            *config,
                            old(src_file).content(),
                            old(src_file).cursor(),
                            old(dest_file).content(),
                            old(dest_file).cursor(),
                        ).tally.differing,
                        index as nat,
                    )
                },
                SyncError::Seek(_) | SyncError::Write(_) | SyncError::ShortWrite { .. } => {
                    &&& config.writes()
                    &&& !old(dest_file).reliable() || !steady(*config, old(dest_file).cursor())
                },
            },
        },
        old(src_file).reliable() && old(dest_file).reliable() && config.block_size > 0
            && config.buffer_size > 0 && (steady(*config, old(dest_file).cursor()) || (
        !config.writes() && (config.locates() ==> offsets_fit(
            expected(
                *config,
                old(src_file).content(),
                old(src_file).cursor(),
                old(dest_file).content(),
                old(dest_file).cursor(),
            ).tally.differing,
        )))) ==> r is Ok,
{
    proof {
        lemma_nothing_changed(
            old(dest_file).content(),
            expected(
                *config,
                old(src_file).content(),
                old(src_file).cursor(),
                old(dest_file).content(),
                old(dest_file).cursor(),
            ).tally.differing,
        );
    }
    if config.block_size == 0 {
        return Err(SyncError::Config(ConfigError::ZeroBlockSize));
    }
    if config.buffer_size == 0 {
        return Err(SyncError::Config(ConfigError::ZeroBufferSize));
    }
    let ghost source = old(src_file).content();
    let ghost source_start = old(src_file).cursor();
    let ghost d0 = old(dest_file).content();
    let ghost block = config.block_size as nat;
    let ghost buffer = config.buffer_size as nat;
    let ghost write = config.writes();
    let ghost in_lockstep = steady(*config, old(dest_file).cursor());
    proof {
        law_tally_is_orderly(
            source,
            source_start,
            d0,
            old(dest_file).cursor(),
            block,
            buffer,
            write,
        );
        if !write {
            law_read_only_coverage(
                source,
                source_start,
                d0,
                old(dest_file).cursor(),
                block,
                buffer,
            );
            law_differing_blocks_are_listed(
                source,
                source_start,
                d0,
                old(dest_file).cursor(),
                block,
                buffer,
            );
        } else if in_lockstep {
            assert(unread(d0, 0) =~= d0);
            law_sync_is_idempotent(source, source_start, d0, block, buffer);
            law_dry_run_counts_the_same(source, source_start, d0, block, buffer);
            law_read_only_coverage(source, source_start, d0, 0, block, buffer);
            law_differing_blocks_are_listed(source, source_start, d0, 0, block, buffer);
        }
    }
    run_rounds(config, src_file, dest_file)
}

} // verus!
