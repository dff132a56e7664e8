use blocksync::cli::{
    interpret, parse_count, parse_opts, usage, CliError, Invocation, Job, RawArguments,
};
use blocksync::size::SizeError;
use blocksync::types::{Config, Mode};

fn args(list: &[&str]) -> Vec<String> {
    list.iter().map(|s| s.to_string()).collect()
}

fn job(source: Option<&str>, destination: &str, block: usize, buffer: usize, dry: bool) -> Invocation {
    Invocation::Run(Job {
        source: source.map(|s| s.to_string()),
        destination: destination.to_string(),
        config: Config { block_size: block, buffer_size: buffer, mode: Mode::Sync, dry_run: dry },
    })
}

fn raw(free: &[&str]) -> RawArguments {
    RawArguments {
        help: false,
        dry_run: false,
        block_size: None,
        buffer_blocks: None,
        source: None,
        free: args(free),
    }
}

#[test]
fn parse_opts_defaults() {
    assert_eq!(parse_opts(&args(&["prog", "disk.img"])), Ok(job(None, "disk.img", 1024, 1024, false)));
}

#[test]
fn parse_opts_reads_every_option() {
    assert_eq!(
        parse_opts(&args(&["prog", "-b", "4KiB", "-u", "8", "-s", "in.img", "-d", "out.img"])),
        Ok(job(Some("in.img"), "out.img", 4096, 32768, true))
    );
    assert_eq!(
        parse_opts(&args(&[
            "prog",
            "out.img",
            "--block-size=1MiB",
            "--buffer-blocks",
            "2",
            "--source",
            "in.img",
            "--dry-run",
        ])),
        Ok(job(Some("in.img"), "out.img", 1 << 20, 2 << 20, true))
    );
}

#[test]
fn parse_opts_skips_the_program_name_only() {
    assert_eq!(parse_opts(&args(&["-h", "out.img"])), Ok(job(None, "out.img", 1024, 1024, false)));
    assert_eq!(parse_opts(&args(&[])), Ok(Invocation::Usage));
    assert_eq!(parse_opts(&args(&["prog"])), Ok(Invocation::Usage));
}

#[test]
fn parse_opts_help_and_missing_destination_ask_for_usage() {
    assert_eq!(parse_opts(&args(&["prog", "-h"])), Ok(Invocation::Usage));
    assert_eq!(parse_opts(&args(&["prog", "--help", "-b", "bogus", "x"])), Ok(Invocation::Usage));
    assert_eq!(parse_opts(&args(&["prog", "a", "b"])), Ok(Invocation::Usage));
    assert_eq!(parse_opts(&args(&["prog", "-d"])), Ok(Invocation::Usage));
}

#[test]
fn parse_opts_reports_what_getopts_refuses() {
    assert_eq!(
        parse_opts(&args(&["prog", "-x", "out.img"])),
        Err(CliError::Options("Unrecognized option: 'x'".to_string()))
    );
    assert_eq!(
        parse_opts(&args(&["prog", "out.img", "-b"])),
        Err(CliError::Options("Argument to option 'b' missing".to_string()))
    );
    assert_eq!(
        parse_opts(&args(&["prog", "-d", "-d", "out.img"])),
        Err(CliError::Options("Option 'dry-run' given more than once".to_string()))
    );
}

#[test]
fn parse_opts_judges_sizes_before_the_destination() {
    assert_eq!(
        parse_opts(&args(&["prog", "-b", "4XB"])),
        Err(CliError::BlockSize(SizeError::Unit))
    );
    assert_eq!(
        parse_opts(&args(&["prog", "-b", "KiB", "out.img"])),
        Err(CliError::BlockSize(SizeError::Number))
    );
    assert_eq!(parse_opts(&args(&["prog", "-u", "many"])), Err(CliError::BufferBlocks));
    assert_eq!(
        parse_opts(&args(&["prog", "-b", "1TiB", "-u", "16777216", "out.img"])),
        Err(CliError::BufferTooLarge)
    );
}

#[test]
fn interpret_follows_the_order_of_judgement() {
    let mut r = raw(&[]);
    r.help = true;
    r.block_size = Some("bogus".to_string());
    assert_eq!(interpret(r), Ok(Invocation::Usage));

    let mut r = raw(&["x"]);
    r.block_size = Some("bogus".to_string());
    r.buffer_blocks = Some("bogus".to_string());
    assert_eq!(interpret(r), Err(CliError::BlockSize(SizeError::Number)));

    let mut r = raw(&[]);
    r.buffer_blocks = Some("-1".to_string());
    assert_eq!(interpret(r), Err(CliError::BufferBlocks));

    let mut r = raw(&["a", "b"]);
    r.block_size = Some("1TiB".to_string());
    r.buffer_blocks = Some("16777216".to_string());
    assert_eq!(interpret(r), Ok(Invocation::Usage));

    let mut r = raw(&["out"]);
    r.block_size = Some("2KiB".to_string());
    r.buffer_blocks = Some("+3".to_string());
    r.source = Some("in".to_string());
    r.dry_run = true;
    assert_eq!(interpret(r), Ok(job(Some("in"), "out", 2048, 6144, true)));

    let mut r = raw(&["out"]);
    r.buffer_blocks = Some("0".to_string());
    assert_eq!(interpret(r), Ok(job(None, "out", 1024, 0, false)));
}

#[test]
fn parse_count_reads_plain_decimals() {
    assert_eq!(parse_count("0"), Some(0));
    assert_eq!(parse_count("42"), Some(42));
    assert_eq!(parse_count("+42"), Some(42));
    assert_eq!(parse_count("0042"), Some(42));
    assert_eq!(parse_count(""), None);
    assert_eq!(parse_count("+"), None);
    assert_eq!(parse_count("-1"), None);
    assert_eq!(parse_count("++1"), None);
    assert_eq!(parse_count("4 "), None);
    assert_eq!(parse_count("4KiB"), None);
    assert_eq!(parse_count("18446744073709551615"), Some(usize::MAX));
    assert_eq!(parse_count("18446744073709551616"), None);
    for text in ["7", "+7", "x", "", "+", "-0", "18446744073709551616"] {
        assert_eq!(parse_count(text), text.parse::<usize>().ok());
    }
}

#[test]
fn usage_names_program_and_options() {
    let text = usage("blocksync");
    assert!(text.starts_with("Usage: blocksync <destination file> [options]\n\nOptions:\n"));
    assert!(text.contains("-b, --block-size SIZE"));
    assert!(text.contains("-u, --buffer-blocks BLOCKS"));
    assert!(text.contains("-s, --source FILE"));
    assert!(text.contains("-d, --dry-run"));
    assert!(text.contains("-h, --help"));
    assert!(text.ends_with(
        "\n    SIZE values can be given in units 'TiB', 'GiB', 'MiB', 'KiB', or 'B' (default).\n    Will run until reaches end of file of either source or destionation.\n\n"
    ));
}
