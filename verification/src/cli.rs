//! The command line: which options there are, and what a parsed command
//! line asks for.

use vstd::prelude::*;
use vstd::string::StringExecFns;
use crate::size::{SizeError, kept, parse_size, size_from_parts, size_of_parts};
use crate::types::{Config, Mode};

verus! {

/// The set of options of `getopts`, opaque to the verifier.
#[verifier::external_type_specification]
#[verifier::external_body]
pub struct ExOptions(getopts::Options);

/// A parsed command line of `getopts`, opaque to the verifier.
#[verifier::external_type_specification]
#[verifier::external_body]
pub struct ExMatches(getopts::Matches);

/// A parse failure of `getopts`, opaque to the verifier.
#[verifier::external_type_specification]
#[verifier::external_body]
pub struct ExFail(getopts::Fail);

/// One option as it was declared.
pub struct Declared {
    /// The short name, one character.
    pub short: Seq<char>,
    /// The long name.
    pub long: Seq<char>,
    /// What the usage text says of the option.
    pub desc: Seq<char>,
    /// How the usage text calls the option's value.
    pub hint: Seq<char>,
    /// Whether the option takes a value.
    pub takes_value: bool,
}

/// What parsing cut a command line into.
pub struct Cut {
    /// For every name, short or long, that was declared: the occurrences of
    /// its option in their order, each with the value it was given, if any.
    pub given: Map<Seq<char>, Seq<Option<Seq<char>>>>,
    /// The arguments that belong to no option.
    pub free: Seq<Seq<char>>,
}

/// The options that a `getopts::Options` holds, in the order in which they
/// were declared.
pub uninterp spec fn declared(options: getopts::Options) -> Seq<Declared>;

/// What a `getopts::Matches` holds.
pub uninterp spec fn cut_of(matches: getopts::Matches) -> Cut;

/// What `getopts::Options::parse` cuts the arguments `args` into where the
/// options `table` are declared, or nothing where it refuses them.
pub uninterp spec fn cutting(table: Seq<Declared>, args: Seq<Seq<char>>) -> Option<Cut>;

/// What `getopts::Options::usage` writes under the line `brief` where the
/// options `table` are declared.
pub uninterp spec fn listing(table: Seq<Declared>, brief: Seq<char>) -> Seq<char>;

/// Whether `c` is a lower-case letter or a hyphen.
pub open spec fn plain(c: char) -> bool {
    97 <= c as u32 <= 122 || c as u32 == 45
}

/// Whether `short` and `long` can name an option: one plain character, and
/// two or more of them.
pub open spec fn well_named(short: Seq<char>, long: Seq<char>) -> bool {
    &&& short.len() == 1
    &&& plain(short[0])
    &&& long.len() >= 2
    &&& forall|i: int| 0 <= i < long.len() ==> plain(#[trigger] long[i])
}

/// Whether every option in `table` is well named.
pub open spec fn all_well_named(table: Seq<Declared>) -> bool {
    forall|i: int| 0 <= i < table.len() ==> well_named((#[trigger] table[i]).short, table[i].long)
}

/// The names, short and long, of the options in `table`.
pub open spec fn names(table: Seq<Declared>) -> Set<Seq<char>> {
    Set::new(
        |name: Seq<char>|
            exists|i: int|
                0 <= i < table.len() && ((#[trigger] table[i]).short == name || table[i].long
                    == name),
    )
}

/// The texts of a list of strings.
pub open spec fn texts(list: Seq<String>) -> Seq<Seq<char>> {
    list.map_values(|s: String| s@)
}

/// The value of the first occurrence in `occurrences`, if there is an
/// occurrence and it has a value.
pub open spec fn first_value(occurrences: Seq<Option<Seq<char>>>) -> Option<Seq<char>> {
    if occurrences.len() > 0 {
        occurrences[0]
    } else {
        None
    }
}

/// `getopts::Options::new` makes a set of options that holds none.
#[verifier::external_body]
fn no_options() -> (options: getopts::Options)
    ensures
        declared(options) == Seq::<Declared>::empty(),
{
    getopts::Options::new()
}

/// `getopts::Options::optopt` adds an option that may be given once and
/// takes a value. It panics on a short name of more than one byte and on a
/// long name of exactly one, which well-named options avoid.
#[verifier::external_body]
fn declare_value(options: &mut getopts::Options, short: &str, long: &str, desc: &str, hint: &str)
    requires
        well_named(short@, long@),
    ensures
        declared(*final(options)) == declared(*old(options)).push(
            Declared { short: short@, long: long@, desc: desc@, hint: hint@, takes_value: true },
        ),
{
    options.optopt(short, long, desc, hint);
}

/// `getopts::Options::optflag` adds an option that may be given once and
/// takes no value, and so has no name for one. It panics on the same names
/// as `optopt`.
#[verifier::external_body]
fn declare_flag(options: &mut getopts::Options, short: &str, long: &str, desc: &str)
    requires
        well_named(short@, long@),
    ensures
        declared(*final(options)) == declared(*old(options)).push(
            Declared {
                short: short@,
                long: long@,
                desc: desc@,
                hint: Seq::empty(),
                takes_value: false,
            },
        ),
{
    options.optflag(short, long, desc);
}

/// `getopts::Options::parse` cuts a command line into options and free
/// arguments; what it makes of given options and arguments is referred to
/// as `cutting`. It panics on an option without any name or with a short
/// name of several bytes, which well-named options avoid. Where it
/// succeeds, the result can be asked about exactly the names that were
/// declared.
#[verifier::external_body]
fn parse_args(options: &getopts::Options, args: &Vec<String>) -> (r: Result<
    getopts::Matches,
    getopts::Fail,
>)
    requires
        all_well_named(declared(*options)),
    ensures
        match r {
            Ok(m) => {
                &&& cutting(declared(*options), texts(args@)) == Some(cut_of(m))
                &&& cut_of(m).given.dom() == names(declared(*options))
            },
            Err(_) => cutting(declared(*options), texts(args@)) is None,
        },
{
    options.parse(args)
}

/// `getopts::Matches::opt_present` tells whether the option occurred. It
/// panics on a name that was not declared.
#[verifier::external_body]
fn flag_given(matches: &getopts::Matches, name: &str) -> (given: bool)
    requires
        cut_of(*matches).given.dom().contains(name@),
    ensures
        given == (cut_of(*matches).given[name@].len() > 0),
{
    matches.opt_present(name)
}

/// `getopts::Matches::opt_str` hands out the value of the option's first
/// occurrence, if the option occurred and was given a value there. It
/// panics on a name that was not declared.
#[verifier::external_body]
fn value_given(matches: &getopts::Matches, name: &str) -> (value: Option<String>)
    requires
        cut_of(*matches).given.dom().contains(name@),
    ensures
        match value {
            Some(text) => first_value(cut_of(*matches).given[name@]) == Some(text@),
            None => first_value(cut_of(*matches).given[name@]) is None,
        },
{
    matches.opt_str(name)
}

/// The field `free` of `getopts::Matches`: the arguments that belong to no
/// option, in their order.
#[verifier::external_body]
fn free_arguments(matches: &getopts::Matches) -> (free: Vec<String>)
    ensures
        texts(free@) == cut_of(*matches).free,
{
    matches.free.clone()
}

/// The message of a `getopts::Fail`, as its `Display` writes it.
#[verifier::external_body]
fn failure_text(failure: &getopts::Fail) -> String {
    failure.to_string()
}

/// `getopts::Options::usage` lists the options under the line `brief`; the
/// text is referred to as `listing`. It panics on a short name that is not
/// one column wide, which well-named options avoid.
#[verifier::external_body]
fn options_help(options: &getopts::Options, brief: &str) -> (text: String)
    requires
        all_well_named(declared(*options)),
    ensures
        text@ == listing(declared(*options), brief@),
{
    options.usage(brief)
}

/// What was found on a command line, before any of it is judged.
#[derive(Debug, Clone, PartialEq, Eq)]
pub struct RawArguments {
    /// `-h` was given.
    pub help: bool,
    /// `-d` was given.
    pub dry_run: bool,
    /// The value of `-b`.
    pub block_size: Option<String>,
    /// The value of `-u`.
    pub buffer_blocks: Option<String>,
    /// The value of `-s`.
    pub source: Option<String>,
    /// The arguments that belong to no option.
    pub free: Vec<String>,
}

/// What a command line asks to be run.
#[derive(Debug, Clone, PartialEq, Eq)]
pub struct Job {
    /// Path of the source; standard input where there is none.
    pub source: Option<String>,
    /// Path of the destination.
    pub destination: String,
    /// Settings of the run.
    pub config: Config,
}

/// What a command line asks for.
#[derive(Debug, Clone, PartialEq, Eq)]
pub enum Invocation {
    /// Run the job.
    Run(Job),
    /// Show the usage text and leave with status 1.
    Usage,
}

/// Why a command line was refused.
#[derive(Debug, Clone, PartialEq, Eq)]
pub enum CliError {
    /// The options could not be parsed; the message says why.
    Options(String),
    /// The value of `-b` is no size.
    BlockSize(SizeError),
    /// The value of `-u` is no number.
    BufferBlocks,
    /// Block size times buffer blocks is too large for this machine.
    BufferTooLarge,
}

/// `s` without a leading plus sign.
pub open spec fn unsigned(s: Seq<char>) -> Seq<char> {
    if s.len() > 0 && s[0] == '+' {
        s.skip(1)
    } else {
        s
    }
}

/// The number that `s` spells in decimal, with or without a leading plus
/// sign, if it spells one that fits the machine.
pub open spec fn count_of(s: Seq<char>) -> Option<usize> {
    match size_of_parts(unsigned(s), Seq::empty()) {
        Ok(v) => Some(v),
        Err(_) => None,
    }
}

/// What the arguments `raw` ask for.
///
/// A request for help wins over everything. Then the block size is judged
/// (1 KiB where none is given), then the number of blocks to buffer (1
/// where none is given), and only then whether there is exactly one free
/// argument, the destination; without it the usage text is due.
pub open spec fn interpretation(raw: RawArguments) -> Result<Invocation, CliError> {
    if raw.help {
        Ok(Invocation::Usage)
    } else {
        let block_size = match raw.block_size {
            Some(text) => size_of_parts(kept(text@, true), kept(text@, false)),
            None => Ok(1024usize),
        };
        let blocks = match raw.buffer_blocks {
            Some(text) => count_of(text@),
            None => Some(1usize),
        };
        match block_size {
            Err(e) => Err(CliError::BlockSize(e)),
            Ok(block_size) => match blocks {
                None => Err(CliError::BufferBlocks),
                Some(blocks) => if raw.free@.len() != 1 {
                    Ok(Invocation::Usage)
                } else if blocks * block_size > usize::MAX {
                    Err(CliError::BufferTooLarge)
                } else {
                    Ok(
                        Invocation::Run(
                            Job {
                                source: raw.source,
                                destination: raw.free@[0],
                                config: Config {
                                    block_size,
                                    buffer_size: (blocks * block_size) as usize,
                                    mode: Mode::Sync,
                                    dry_run: raw.dry_run,
                                },
                            },
                        ),
                    )
                },
            },
        }
    }
}

/// Reads a count such as `8` or `+8`.
pub fn parse_count(text: &str) -> (r: Option<usize>)
    ensures
        r == count_of(text@),
{
    let len = text.unicode_len();
    let mut digits: Vec<char> = Vec::new();
    let mut i: usize = if len > 0 && text.get_char(0) == '+' {
        1
    } else {
        0
    };
    let ghost first = i;
    while i < len
        invariant
            first <= i <= len,
            len == text@.len(),
            digits@ == text@.subrange(first as int, i as int),
        decreases len - i,
    {
        digits.push(text.get_char(i));
        i = i + 1;
    }
    assert(digits@ == unsigned(text@));
    let unit: Vec<char> = Vec::new();
    match size_from_parts(&digits, &unit) {
        Ok(v) => Some(v),
        Err(_) => None,
    }
}

/// Judges what was found on a command line.
pub fn interpret(raw: RawArguments) -> (r: Result<Invocation, CliError>)
    ensures
        r == interpretation(raw),
{
    if raw.help {
        return Ok(Invocation::Usage);
    }
    let block_size = match &raw.block_size {
        Some(text) => match parse_size(text.as_str()) {
            Ok(v) => v,
            Err(e) => {
                return Err(CliError::BlockSize(e));
            },
        },
        None => 1024,
    };
    let blocks = match &raw.buffer_blocks {
        Some(text) => match parse_count(text.as_str()) {
            Some(v) => v,
            None => {
                return Err(CliError::BufferBlocks);
            },
        },
        None => 1,
    };
    if raw.free.len() != 1 {
        return Ok(Invocation::Usage);
    }
    let buffer_size = match blocks.checked_mul(block_size) {
        Some(v) => v,
        None => {
            return Err(CliError::BufferTooLarge);
        },
    };
    let RawArguments { help: _, dry_run, block_size: _, buffer_blocks: _, source, mut free } = raw;
    let destination = match free.pop() {
        Some(d) => d,
        None => {
            return Ok(Invocation::Usage);
        },
    };
    Ok(
        Invocation::Run(
            Job {
                source,
                destination,
                config: Config { block_size, buffer_size, mode: Mode::Sync, dry_run },
            },
        ),
    )
}

/// The options of the program: block size, blocks to buffer, source, dry run
/// and help.
pub open spec fn program_table() -> Seq<Declared> {
    seq![
        Declared {
            short: "b"@,
            long: "block-size"@,
            desc: "set block-size (default 1KiB)"@,
            hint: "SIZE"@,
            takes_value: true,
        },
        Declared {
            short: "u"@,
            long: "buffer-blocks"@,
            desc: "number of blocks to buffer (default 1)"@,
            hint: "BLOCKS"@,
            takes_value: true,
        },
        Declared {
            short: "s"@,
            long: "source"@,
            desc: "source of synchronization (default is stdin)"@,
            hint: "FILE"@,
            takes_value: true,
        },
        Declared {
            short: "d"@,
            long: "dry-run"@,
            desc: "compare but do not write"@,
            hint: Seq::empty(),
            takes_value: false,
        },
        Declared {
            short: "h"@,
            long: "help"@,
            desc: "print this help menu"@,
            hint: Seq::empty(),
            takes_value: false,
        },
    ]
}

fn program_options() -> (options: getopts::Options)
    ensures
        declared(options) == program_table(),
        all_well_named(declared(options)),
{
    proof {
        reveal_strlit("b");
        reveal_strlit("block-size");
        reveal_strlit("u");
        reveal_strlit("buffer-blocks");
        reveal_strlit("s");
        reveal_strlit("source");
        reveal_strlit("d");
        reveal_strlit("dry-run");
        reveal_strlit("h");
        reveal_strlit("help");
    }
    let mut options = no_options();
    declare_value(&mut options, "b", "block-size", "set block-size (default 1KiB)", "SIZE");
    declare_value(
        &mut options,
        "u",
        "buffer-blocks",
        "number of blocks to buffer (default 1)",
        "BLOCKS",
    );
    declare_value(
        &mut options,
        "s",
        "source",
        "source of synchronization (default is stdin)",
        "FILE",
    );
    declare_flag(&mut options, "d", "dry-run", "compare but do not write");
    declare_flag(&mut options, "h", "help", "print this help menu");
    proof {
        let table = declared(options);
        assert(table =~= program_table());
        assert forall|i: int| 0 <= i < table.len() implies well_named(
            (#[trigger] table[i]).short,
            table[i].long,
        ) by {
            if i == 0 {
            } else if i == 1 {
            } else if i == 2 {
            } else if i == 3 {
            } else {
            }
        }
    }
    options
}

/// The text of an optional string.
pub open spec fn text_of(value: Option<String>) -> Option<Seq<char>> {
    match value {
        Some(text) => Some(text@),
        None => None,
    }
}

/// Whether `raw` holds what the program's options were found to be in `cut`.
pub open spec fn found_in(raw: RawArguments, cut: Cut) -> bool {
    &&& raw.help == (cut.given["h"@].len() > 0)
    &&& raw.dry_run == (cut.given["d"@].len() > 0)
    &&& text_of(raw.block_size) == first_value(cut.given["b"@])
    &&& text_of(raw.buffer_blocks) == first_value(cut.given["u"@])
    &&& text_of(raw.source) == first_value(cut.given["s"@])
    &&& texts(raw.free@) == cut.free
}

/// The arguments of a command line: all but the first entry, which is the
/// program's name.
pub open spec fn arguments(args: Seq<String>) -> Seq<Seq<char>> {
    if args.len() > 0 {
        texts(args.skip(1))
    } else {
        Seq::empty()
    }
}

/// Reads the command line `args`, whose first entry is the program's name,
/// and says what it asks for.
///
/// The options are cut out by `getopts`. A command line that it refuses is
/// answered with its message; what it finds is judged as `interpretation`
/// says.
pub fn parse_opts(args: &Vec<String>) -> (r: Result<Invocation, CliError>)
    ensures
        match cutting(program_table(), arguments(args@)) {
            None => r matches Err(CliError::Options(_)),
            Some(cut) => exists|raw: RawArguments|
                found_in(raw, cut) && r == #[trigger] interpretation(raw),
        },
{
    let mut given: Vec<String> = Vec::new();
    let mut i: usize = 1;
    while i < args.len()
        invariant
            1 <= i,
            i <= args.len() || i == 1,
            given@.len() == if i <= args.len() {
                i - 1
            } else {
                0
            },
            forall|k: int| 0 <= k < given@.len() ==> (#[trigger] given@[k])@ == args@[k + 1]@,
        decreases args.len() - i,
    {
        given.push(args[i].clone());
        i = i + 1;
    }
    proof {
        let mine = texts(given@);
        let theirs = arguments(args@);
        assert(mine.len() == theirs.len());
        assert forall|k: int| 0 <= k < mine.len() implies mine[k] == theirs[k] by {
            assert(mine[k] == given@[k]@);
            assert(args@.skip(1)[k] == args@[k + 1]);
        }
        assert(mine =~= theirs);
    }
    let options = program_options();
    let matches = match parse_args(&options, &given) {
        Ok(m) => m,
        Err(failure) => {
            return Err(CliError::Options(failure_text(&failure)));
        },
    };
    proof {
        let table = declared(options);
        assert(table[0].short == "b"@);
        assert(table[1].short == "u"@);
        assert(table[2].short == "s"@);
        assert(table[3].short == "d"@);
        assert(table[4].short == "h"@);
    }
    let raw = RawArguments {
        help: flag_given(&matches, "h"),
        dry_run: flag_given(&matches, "d"),
        block_size: value_given(&matches, "b"),
        buffer_blocks: value_given(&matches, "u"),
        source: value_given(&matches, "s"),
        free: free_arguments(&matches),
    };
    assert(found_in(raw, cut_of(matches)));
    interpret(raw)
}

/// The line that opens the usage text for a program called `program`.
pub open spec fn usage_brief(program: Seq<char>) -> Seq<char> {
    "Usage: "@ + program + " <destination file> [options]"@
}

/// The notes that close the usage text.
pub open spec fn usage_notes() -> Seq<char> {
    "\n    SIZE values can be given in units 'TiB', 'GiB', 'MiB', 'KiB', or 'B' (default).\n    Will run until reaches end of file of either source or destionation.\n\n"@
}

/// The usage text for a program called `program`: the summary line and the
/// options as `getopts` lists them, then the notes on sizes and on where a
/// run ends.
pub fn usage(program: &str) -> (text: String)
    ensures
        text@ == listing(program_table(), usage_brief(program@)) + usage_notes(),
{
    let mut brief = String::from_str("Usage: ");
    brief.append(program);
    brief.append(" <destination file> [options]");
    let options = program_options();
    let mut text = options_help(&options, brief.as_str());
    text.append(
        "\n    SIZE values can be given in units 'TiB', 'GiB', 'MiB', 'KiB', or 'B' (default).\n    Will run until reaches end of file of either source or destionation.\n\n",
    );
    text
}

} // verus!
