//! What a run is given and what it hands back.

use vstd::prelude::*;
use crate::stream::IoFault;

verus! {

/// What a run does with a block that differs.
#[derive(Debug, Clone, Copy, PartialEq, Eq)]
pub enum Mode {
    /// Report the block and leave the destination alone.
    Diff,
    /// Overwrite the block in the destination with the source's bytes.
    Sync,
}

/// The settings of one run.
#[derive(Debug, Clone, Copy, PartialEq, Eq)]
pub struct Config {
    /// Size of a block in bytes; must not be zero.
    pub block_size: usize,
    /// Number of bytes read from each stream at a time; must not be zero.
    pub buffer_size: usize,
    /// Whether differing blocks are reported or overwritten.
    pub mode: Mode,
    /// In `Sync` mode: compare and count, but write nothing.
    pub dry_run: bool,
}

impl Config {
    /// Whether a run with these settings writes to the destination.
    pub open spec fn writes(&self) -> bool {
        self.mode == Mode::Sync && !self.dry_run
    }

    /// Whether a run with these settings needs the byte offset of each
    /// differing block: to report it, or to write there.
    pub open spec fn locates(&self) -> bool {
        self.mode == Mode::Diff || !self.dry_run
    }

    /// Tells whether a run with these settings needs the byte offset of each
    /// differing block.
    pub fn needs_offsets(&self) -> (b: bool)
        ensures
            b == self.locates(),
    {
        match self.mode {
            Mode::Diff => true,
            Mode::Sync => !self.dry_run,
        }
    }

    /// Whether the buffer holds a whole number of blocks.
    pub open spec fn aligned(&self) -> bool {
        self.block_size > 0 && self.buffer_size % self.block_size == 0
    }
}

/// One block as the model sees it, with unbounded numbers.
pub struct BlockSpan {
    /// Ordinal of the block within the run, from zero.
    pub index: nat,
    /// `index` times the block size.
    pub byte_offset: nat,
    /// Number of bytes compared for this block.
    pub size: nat,
}

/// A block that was found to differ.
#[derive(Debug, Clone, Copy, PartialEq, Eq)]
pub struct BlockDescriptor {
    /// Ordinal of the block within the run, from zero.
    pub index: u64,
    /// `index` times the block size.
    pub byte_offset: u64,
    /// Number of bytes compared for this block.
    pub size: usize,
}

impl View for BlockDescriptor {
    type V = BlockSpan;

    open spec fn view(&self) -> BlockSpan {
        BlockSpan {
            index: self.index as nat,
            byte_offset: self.byte_offset as nat,
            size: self.size as nat,
        }
    }
}

/// The spans that a list of descriptors stands for.
pub open spec fn spans(blocks: Seq<BlockDescriptor>) -> Seq<BlockSpan> {
    blocks.map_values(|d: BlockDescriptor| d@)
}

/// Counters of one run.
#[derive(Debug, Clone, Copy, PartialEq, Eq)]
pub struct RunStatistics {
    /// Blocks that were compared.
    pub blocks_compared: u64,
    /// Blocks that were found to differ.
    pub blocks_differing: u64,
    /// Bytes that were compared.
    pub bytes_compared: u64,
    /// Bytes in the blocks that were found to differ.
    pub bytes_differing: u64,
}

/// What a run hands back.
#[derive(Debug, Clone, PartialEq, Eq)]
pub struct RunReport {
    /// The differing blocks in ascending order; empty in `Sync` mode, which
    /// does not keep them.
    pub differing: Vec<BlockDescriptor>,
    /// The counters.
    pub stats: RunStatistics,
}

/// A setting that no run can work with.
#[derive(Debug, Clone, Copy, PartialEq, Eq)]
pub enum ConfigError {
    /// The block size is zero.
    ZeroBlockSize,
    /// The buffer size is zero.
    ZeroBufferSize,
}

/// One of the two streams of a run.
#[derive(Debug, Clone, Copy, PartialEq, Eq)]
pub enum Side {
    /// The stream that is read only.
    Source,
    /// The stream that is compared and, in `Sync` mode, patched.
    Destination,
}

/// Why a run stopped early.
#[derive(Debug, Clone, PartialEq, Eq)]
pub enum SyncError {
    /// The settings were refused before anything was read.
    Config(ConfigError),
    /// Reading from one of the streams failed.
    Read(Side, IoFault),
    /// Asking for the destination's cursor, or moving it, failed.
    Seek(IoFault),
    /// Writing to the destination failed.
    Write(IoFault),
    /// The destination took fewer bytes than the block holds.
    ShortWrite {
        /// Bytes in the block.
        expected: usize,
        /// Bytes the destination took.
        written: usize,
    },
    /// The byte offset of a differing block does not fit in 64 bits.
    OffsetOverflow {
        /// Ordinal of that block.
        index: u64,
    },
}

} // verus!
