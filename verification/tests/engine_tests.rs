use blocksync::engine::{blocks_equal, patch_block, sync_files, written_fully};
use blocksync::memory::MemStream;
use blocksync::stream::{ByteSource, IoFault, PatchTarget};
use blocksync::types::{
    BlockDescriptor, Config, ConfigError, Mode, RunStatistics, Side, SyncError,
};

fn config(block_size: usize, buffer_size: usize, mode: Mode, dry_run: bool) -> Config {
    Config { block_size, buffer_size, mode, dry_run }
}

fn pattern(len: usize) -> Vec<u8> {
    (0..len).map(|i| (i * 31 % 251) as u8).collect()
}

fn stats(blocks: u64, differing: u64, bytes: u64, differing_bytes: u64) -> RunStatistics {
    RunStatistics {
        blocks_compared: blocks,
        blocks_differing: differing,
        bytes_compared: bytes,
        bytes_differing: differing_bytes,
    }
}

#[test]
fn identical_streams_have_no_differing_blocks() {
    let data = pattern(10_000);
    for mode in [Mode::Diff, Mode::Sync] {
        let mut src = MemStream::new(data.clone());
        let mut dst = MemStream::new(data.clone());
        let report = sync_files(&config(1024, 4096, mode, false), &mut src, &mut dst).unwrap();
        assert_eq!(report.stats, stats(10, 0, 10_000, 0));
        assert!(report.differing.is_empty());
        assert_eq!(dst.data, data);
    }
}

#[test]
fn all_blocks_differ_diff_mode_lists_them() {
    let mut src = MemStream::new(vec![0xFF; 2048]);
    let mut dst = MemStream::new(vec![0x00; 2048]);
    let report = sync_files(&config(512, 512, Mode::Diff, false), &mut src, &mut dst).unwrap();
    let expected: Vec<BlockDescriptor> = (0..4u64)
        .map(|i| BlockDescriptor { index: i, byte_offset: i * 512, size: 512 })
        .collect();
    assert_eq!(report.differing, expected);
    assert_eq!(report.stats, stats(4, 4, 2048, 2048));
    assert_eq!(dst.data, vec![0x00; 2048]);
}

#[test]
fn all_blocks_differ_sync_mode_copies_source() {
    let mut src = MemStream::new(vec![0xFF; 2048]);
    let mut dst = MemStream::new(vec![0x00; 2048]);
    let report = sync_files(&config(512, 1024, Mode::Sync, false), &mut src, &mut dst).unwrap();
    assert_eq!(report.stats, stats(4, 4, 2048, 2048));
    assert!(report.differing.is_empty());
    assert_eq!(dst.data, vec![0xFF; 2048]);
}

#[test]
fn longer_destination_tail_is_left_alone() {
    let head = pattern(1500);
    let mut longer = head.clone();
    longer.extend(std::iter::repeat(0xAB).take(1500));
    for mode in [Mode::Diff, Mode::Sync] {
        let mut src = MemStream::new(head.clone());
        let mut dst = MemStream::new(longer.clone());
        let report = sync_files(&config(500, 1000, mode, false), &mut src, &mut dst).unwrap();
        assert_eq!(report.stats, stats(3, 0, 1500, 0));
        assert!(report.differing.is_empty());
        assert_eq!(dst.data, longer);
    }
}

#[test]
fn longer_source_tail_is_never_inspected() {
    let mut src_data = pattern(3000);
    let dst_data = src_data[..1500].to_vec();
    for b in src_data[1500..].iter_mut() {
        *b = !*b;
    }
    let mut src = MemStream::new(src_data);
    let mut dst = MemStream::new(dst_data.clone());
    let report = sync_files(&config(500, 1000, Mode::Sync, false), &mut src, &mut dst).unwrap();
    assert_eq!(report.stats, stats(3, 0, 1500, 0));
    assert_eq!(dst.data, dst_data);
}

#[test]
fn patch_in_the_middle_keeps_later_reads_in_step() {
    let source = pattern(64 * 1024);
    let mut damaged = source.clone();
    for b in damaged[20_000..20_010].iter_mut() {
        *b ^= 0x55;
    }
    for b in damaged[50_000..50_001].iter_mut() {
        *b ^= 0x55;
    }
    let mut src = MemStream::new(source.clone());
    let mut dst = MemStream::with_chunk(damaged, 1000);
    let report = sync_files(&config(1024, 8192, Mode::Sync, false), &mut src, &mut dst).unwrap();
    assert_eq!(report.stats, stats(64, 2, 65_536, 2048));
    assert_eq!(dst.data, source);
    assert_eq!(dst.pos, 65_536);
}

#[test]
fn sync_twice_finds_nothing_the_second_time() {
    let source = pattern(5000);
    let mut dst = MemStream::new(vec![7u8; 4100]);
    let cfg = config(256, 1024, Mode::Sync, false);
    let first = sync_files(&cfg, &mut MemStream::new(source.clone()), &mut dst).unwrap();
    assert_eq!(first.stats.bytes_compared, 4100);
    assert_eq!(first.stats.blocks_compared, 17);
    assert_eq!(dst.data, source[..4100].to_vec());
    let after_first = dst.data.clone();
    dst.pos = 0;
    let second = sync_files(&cfg, &mut MemStream::new(source.clone()), &mut dst).unwrap();
    assert_eq!(second.stats, stats(17, 0, 4100, 0));
    assert_eq!(dst.data, after_first);
}

#[test]
fn dry_run_counts_but_writes_nothing() {
    let source = pattern(3000);
    let dest = vec![1u8; 3000];
    let mut dry = MemStream::new(dest.clone());
    let mut wet = MemStream::new(dest.clone());
    let dry_report = sync_files(
        &config(700, 1400, Mode::Sync, true),
        &mut MemStream::new(source.clone()),
        &mut dry,
    )
    .unwrap();
    let wet_report = sync_files(
        &config(700, 1400, Mode::Sync, false),
        &mut MemStream::new(source.clone()),
        &mut wet,
    )
    .unwrap();
    assert_eq!(dry.data, dest);
    assert_eq!(wet.data, source);
    assert_eq!(dry_report.stats, wet_report.stats);
    assert_eq!(dry_report.stats, stats(5, 5, 3000, 3000));
}

#[test]
fn diff_is_repeatable() {
    let source = pattern(4000);
    let mut other = source.clone();
    other[1000] ^= 1;
    other[3999] ^= 1;
    let cfg = config(512, 2048, Mode::Diff, false);
    let one = sync_files(&cfg, &mut MemStream::new(source.clone()), &mut MemStream::new(other.clone())).unwrap();
    let two = sync_files(&cfg, &mut MemStream::new(source), &mut MemStream::new(other)).unwrap();
    assert_eq!(one, two);
    assert_eq!(
        one.differing,
        vec![
            BlockDescriptor { index: 1, byte_offset: 512, size: 512 },
            BlockDescriptor { index: 7, byte_offset: 3584, size: 416 },
        ]
    );
    assert_eq!(one.stats, stats(8, 2, 4000, 928));
}

#[test]
fn buffer_not_a_multiple_of_block_gives_short_blocks() {
    let source = pattern(3000);
    let mut other = source.clone();
    other[1200] ^= 1;
    let report = sync_files(
        &config(1000, 1500, Mode::Diff, false),
        &mut MemStream::new(source),
        &mut MemStream::new(other),
    )
    .unwrap();
    assert_eq!(report.stats, stats(4, 1, 3000, 500));
    assert_eq!(
        report.differing,
        vec![BlockDescriptor { index: 1, byte_offset: 1000, size: 500 }]
    );
}

#[test]
fn buffer_smaller_than_block_compares_buffer_sized_blocks() {
    let source = pattern(1000);
    let mut other = source.clone();
    other[999] ^= 1;
    let report = sync_files(
        &config(1000, 300, Mode::Diff, false),
        &mut MemStream::new(source),
        &mut MemStream::new(other),
    )
    .unwrap();
    assert_eq!(report.stats, stats(4, 1, 1000, 100));
    assert_eq!(
        report.differing,
        vec![BlockDescriptor { index: 3, byte_offset: 3000, size: 100 }]
    );
}

#[test]
fn empty_stream_ends_the_run_at_once() {
    let report = sync_files(
        &config(16, 64, Mode::Diff, false),
        &mut MemStream::new(Vec::new()),
        &mut MemStream::new(vec![1, 2, 3]),
    )
    .unwrap();
    assert_eq!(report.stats, stats(0, 0, 0, 0));
    assert!(report.differing.is_empty());
}

#[test]
fn zero_sizes_are_refused() {
    let mut src = MemStream::new(vec![1, 2, 3]);
    let mut dst = MemStream::new(vec![4, 5, 6]);
    assert_eq!(
        sync_files(&config(0, 64, Mode::Sync, false), &mut src, &mut dst),
        Err(SyncError::Config(ConfigError::ZeroBlockSize))
    );
    assert_eq!(
        sync_files(&config(16, 0, Mode::Sync, false), &mut src, &mut dst),
        Err(SyncError::Config(ConfigError::ZeroBufferSize))
    );
    assert_eq!(
        sync_files(&config(0, 0, Mode::Diff, false), &mut src, &mut dst),
        Err(SyncError::Config(ConfigError::ZeroBlockSize))
    );
    assert_eq!(src.pos, 0);
    assert_eq!(dst.pos, 0);
    assert_eq!(dst.data, vec![4, 5, 6]);
}

#[test]
fn offset_beyond_64_bits_is_reported() {
    let block = (u64::MAX / 2 + 1) as usize;
    let report = sync_files(
        &config(block, 1, Mode::Diff, false),
        &mut MemStream::new(vec![1, 1, 1]),
        &mut MemStream::new(vec![1, 1, 0]),
    );
    assert_eq!(report, Err(SyncError::OffsetOverflow { index: 2 }));
}

/// A stream that fails in a chosen operation.
struct Faulty {
    inner: MemStream,
    fail_read: bool,
    fail_seek: bool,
    fail_write: bool,
    short_write: bool,
}

impl Faulty {
    fn new(data: Vec<u8>) -> Faulty {
        Faulty {
            inner: MemStream::new(data),
            fail_read: false,
            fail_seek: false,
            fail_write: false,
            short_write: false,
        }
    }
}

fn fault(reason: &str) -> IoFault {
    IoFault { reason: reason.to_string() }
}

impl ByteSource for Faulty {
    fn read_into(&mut self, buf: &mut Vec<u8>, from: usize) -> Result<usize, IoFault> {
        if self.fail_read {
            Err(fault("read"))
        } else {
            self.inner.read_into(buf, from)
        }
    }
}

impl PatchTarget for Faulty {
    fn position(&mut self) -> Result<u64, IoFault> {
        self.inner.position()
    }

    fn seek_to(&mut self, pos: u64) -> Result<(), IoFault> {
        if self.fail_seek {
            Err(fault("seek"))
        } else {
            self.inner.seek_to(pos)
        }
    }

    fn write(&mut self, data: &[u8]) -> Result<usize, IoFault> {
        if self.fail_write {
            Err(fault("write"))
        } else if self.short_write {
            self.inner.write(&data[..data.len() - 1])
        } else {
            self.inner.write(data)
        }
    }
}

#[test]
fn read_fault_names_the_stream() {
    let cfg = config(4, 8, Mode::Sync, false);
    let mut bad = Faulty::new(vec![1; 16]);
    bad.fail_read = true;
    assert_eq!(
        sync_files(&cfg, &mut bad, &mut MemStream::new(vec![1; 16])),
        Err(SyncError::Read(Side::Source, fault("read")))
    );
    assert_eq!(
        sync_files(&cfg, &mut MemStream::new(vec![1; 16]), &mut bad),
        Err(SyncError::Read(Side::Destination, fault("read")))
    );
}

#[test]
fn seek_fault_ends_the_run() {
    let mut bad = Faulty::new(vec![0; 16]);
    bad.fail_seek = true;
    assert_eq!(
        sync_files(&config(4, 8, Mode::Sync, false), &mut MemStream::new(vec![1; 16]), &mut bad),
        Err(SyncError::Seek(fault("seek")))
    );
    assert_eq!(bad.inner.data, vec![0; 16]);
}

#[test]
fn write_fault_ends_the_run() {
    let mut bad = Faulty::new(vec![0; 16]);
    bad.fail_write = true;
    assert_eq!(
        sync_files(&config(4, 8, Mode::Sync, false), &mut MemStream::new(vec![1; 16]), &mut bad),
        Err(SyncError::Write(fault("write")))
    );
}

#[test]
fn short_write_is_an_error_and_earlier_patches_stay() {
    let mut source = vec![0u8; 16];
    source[0] = 9;
    source[9] = 9;
    let mut bad = Faulty::new(vec![0; 16]);
    let cfg = config(4, 8, Mode::Sync, false);
    bad.inner.chunk = 0;
    let first = sync_files(&cfg, &mut MemStream::new(source[..4].to_vec()), &mut bad).unwrap();
    assert_eq!(first.stats, stats(1, 1, 4, 4));
    bad.inner.pos = 0;
    bad.short_write = true;
    assert_eq!(
        sync_files(&cfg, &mut MemStream::new(source.clone()), &mut bad),
        Err(SyncError::ShortWrite { expected: 4, written: 3 })
    );
    assert_eq!(bad.inner.data[..4].to_vec(), vec![9, 0, 0, 0]);
}

#[test]
fn faults_do_not_touch_dry_runs() {
    let mut bad = Faulty::new(vec![0; 16]);
    bad.fail_seek = true;
    bad.fail_write = true;
    let report = sync_files(
        &config(4, 8, Mode::Sync, true),
        &mut MemStream::new(vec![1; 16]),
        &mut bad,
    )
    .unwrap();
    assert_eq!(report.stats, stats(4, 4, 16, 16));
}

#[test]
fn patch_block_restores_the_cursor() {
    let mut dst = MemStream::new(vec![0; 10]);
    dst.pos = 7;
    assert_eq!(patch_block(&mut dst, 2, &[5, 6, 7]), Ok(()));
    assert_eq!(dst.data, vec![0, 0, 5, 6, 7, 0, 0, 0, 0, 0]);
    assert_eq!(dst.pos, 7);
}

#[test]
fn patch_block_past_the_end_lengthens_the_stream() {
    let mut dst = MemStream::new(vec![1, 2]);
    assert_eq!(patch_block(&mut dst, 4, &[9, 9]), Ok(()));
    assert_eq!(dst.data, vec![1, 2, 0, 0, 9, 9]);
    assert_eq!(dst.pos, 0);
}

#[test]
fn blocks_equal_looks_at_the_range_only() {
    let a = vec![1, 2, 3, 4, 5];
    let b = vec![9, 2, 3, 4, 0];
    assert!(blocks_equal(&a, &b, 1, 4));
    assert!(!blocks_equal(&a, &b, 0, 4));
    assert!(!blocks_equal(&a, &b, 1, 5));
    assert!(blocks_equal(&a, &b, 3, 3));
}

#[test]
fn written_fully_judges_the_count() {
    assert_eq!(written_fully(Ok(4), 4), Ok(()));
    assert_eq!(
        written_fully(Ok(3), 4),
        Err(SyncError::ShortWrite { expected: 4, written: 3 })
    );
    assert_eq!(written_fully(Err(fault("disk")), 4), Err(SyncError::Write(fault("disk"))));
}

#[test]
fn misaligned_buffer_patches_at_ordinal_offsets() {
    let mut src = MemStream::new(vec![1; 12]);
    let mut dst = MemStream::new(vec![0; 12]);
    let report = sync_files(&config(4, 6, Mode::Sync, false), &mut src, &mut dst).unwrap();
    assert_eq!(report.stats, stats(4, 4, 12, 12));
    assert_eq!(dst.data, vec![1, 1, 1, 1, 1, 1, 0, 0, 1, 1, 1, 1, 1, 1]);
}

#[test]
fn writes_touch_listed_blocks_only() {
    let source = pattern(4096);
    let mut damaged = source.clone();
    damaged[700] ^= 0xFF;
    damaged[2100] ^= 0xFF;
    let listed = sync_files(
        &config(512, 1024, Mode::Diff, false),
        &mut MemStream::new(source.clone()),
        &mut MemStream::new(damaged.clone()),
    )
    .unwrap()
    .differing;
    assert_eq!(
        listed,
        vec![
            BlockDescriptor { index: 1, byte_offset: 512, size: 512 },
            BlockDescriptor { index: 4, byte_offset: 2048, size: 512 },
        ]
    );
    let mut dst = MemStream::new(damaged.clone());
    sync_files(&config(512, 1024, Mode::Sync, false), &mut MemStream::new(source.clone()), &mut dst)
        .unwrap();
    for (i, byte) in dst.data.iter().enumerate() {
        let inside = listed
            .iter()
            .any(|d| d.byte_offset as usize <= i && i < d.byte_offset as usize + d.size);
        if inside {
            assert_eq!(*byte, source[i]);
        } else {
            assert_eq!(*byte, damaged[i]);
        }
    }
}

#[test]
fn destination_read_from_a_later_byte_is_compared_from_there() {
    let source = vec![5u8; 8];
    let mut dst = MemStream::new(vec![9, 9, 5, 5, 5, 5, 0, 5, 5, 5]);
    dst.pos = 2;
    let report =
        sync_files(&config(4, 4, Mode::Diff, false), &mut MemStream::new(source), &mut dst).unwrap();
    assert_eq!(report.stats, stats(2, 1, 8, 4));
    assert_eq!(report.differing, vec![BlockDescriptor { index: 1, byte_offset: 4, size: 4 }]);
    assert_eq!(dst.pos, 10);
}

#[test]
fn memory_stream_refuses_to_outgrow_memory() {
    let mut dst = MemStream::new(vec![1, 2, 3]);
    dst.pos = u64::MAX - 1;
    assert!(dst.write(&[1, 2, 3]).is_err());
    assert_eq!(dst.data, vec![1, 2, 3]);
    assert_eq!(dst.pos, u64::MAX - 1);
    assert_eq!(dst.write(&[]), Ok(0));
}
