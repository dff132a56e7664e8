use blocksync::size::{parse_size, size_from_parts, size_to_str, SizeError};

fn chars(s: &str) -> Vec<char> {
    s.chars().collect()
}

#[test]
fn parse_size_reads_units() {
    assert_eq!(parse_size("512"), Ok(512));
    assert_eq!(parse_size("512B"), Ok(512));
    assert_eq!(parse_size("4KiB"), Ok(4096));
    assert_eq!(parse_size("3MiB"), Ok(3 * 1024 * 1024));
    assert_eq!(parse_size("2GiB"), Ok(2usize << 30));
    assert_eq!(parse_size("1TiB"), Ok(1usize << 40));
    assert_eq!(parse_size("0KiB"), Ok(0));
    assert_eq!(parse_size("007"), Ok(7));
}

#[test]
fn parse_size_gathers_digits_wherever_they_stand() {
    assert_eq!(parse_size("1K2iB"), Ok(12 * 1024));
    assert_eq!(parse_size("KiB4"), Ok(4096));
}

#[test]
fn parse_size_refuses_bad_numbers() {
    assert_eq!(parse_size(""), Err(SizeError::Number));
    assert_eq!(parse_size("KiB"), Err(SizeError::Number));
    assert_eq!(parse_size("99999999999999999999999"), Err(SizeError::Number));
    assert_eq!(parse_size("1\u{0663}"), Err(SizeError::Number));
    assert_eq!(parse_size("\u{00BD}KiB"), Err(SizeError::Number));
}

#[test]
fn parse_size_refuses_unknown_units() {
    assert_eq!(parse_size("4KB"), Err(SizeError::Unit));
    assert_eq!(parse_size("4kib"), Err(SizeError::Unit));
    assert_eq!(parse_size("4 KiB"), Err(SizeError::Unit));
    assert_eq!(parse_size("-4"), Err(SizeError::Unit));
    assert_eq!(parse_size("+4"), Err(SizeError::Unit));
}

#[test]
fn parse_size_refuses_sizes_beyond_the_machine() {
    assert_eq!(parse_size("18446744073709551615TiB"), Err(SizeError::TooLarge));
    assert_eq!(parse_size("16777216TiB"), Err(SizeError::TooLarge));
    assert_eq!(parse_size("16777215TiB"), Ok(16777215usize << 40));
}

#[test]
fn size_from_parts_judges_number_before_unit() {
    assert_eq!(size_from_parts(&chars("12"), &chars("MiB")), Ok(12 << 20));
    assert_eq!(size_from_parts(&chars("12"), &chars("")), Ok(12));
    assert_eq!(size_from_parts(&chars(""), &chars("bogus")), Err(SizeError::Number));
    assert_eq!(size_from_parts(&chars("1x"), &chars("KiB")), Err(SizeError::Number));
    assert_eq!(size_from_parts(&chars("1"), &chars("bogus")), Err(SizeError::Unit));
}

#[test]
fn size_to_str_picks_the_unit() {
    assert_eq!(size_to_str(&0), "0 bytes");
    assert_eq!(size_to_str(&1023), "1023 bytes");
    assert_eq!(size_to_str(&1024), "1024 bytes");
    assert_eq!(size_to_str(&1025), "1 KiB (1025 bytes)");
    assert_eq!(size_to_str(&(1024 * 1024)), "1024 KiB (1048576 bytes)");
    assert_eq!(size_to_str(&(1024 * 1024 + 1)), "1 MiB (1048577 bytes)");
    assert_eq!(size_to_str(&10_000), "9 KiB (10000 bytes)");
    assert_eq!(size_to_str(&usize::MAX), format!("{} MiB ({} bytes)", usize::MAX >> 20, usize::MAX));
}
