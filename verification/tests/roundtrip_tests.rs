use bytefmt::format_to;
use bytefmt::parse;
use bytefmt::Unit;

#[test]
fn test_readme() {
    let input = "1.23 MB";

    // Parse string into bytes
    let bytes: u64 = parse(input).unwrap();
    assert_eq!(bytes, 1_230_000);

    // Format bytes into string
    let bytes_str = bytefmt::fmt::format(bytes);
    assert_eq!(&bytes_str, input);

    // Format to specific unit
    let kb_str = format_to(bytes, Unit::KB);
    assert_eq!(&kb_str, "1230 KB");
}

#[test]
fn round_trip_decimal_units() {
    // byte counts that are whole multiples of a hundredth of the unit
    for &n in &[0u64, 10, 500, 1_230, 999_990, 123_456_780] {
        assert_eq!(parse(&format_to(n, Unit::KB)).unwrap(), n);
    }
    for &n in &[0u64, 10_000, 1_230_000, 555_550_000] {
        assert_eq!(parse(&format_to(n, Unit::MB)).unwrap(), n);
    }
    for &n in &[12_340_000_000u64, 10_000_000] {
        assert_eq!(parse(&format_to(n, Unit::GB)).unwrap(), n);
    }
    for &n in &[1_230_000_000_000u64] {
        assert_eq!(parse(&format_to(n, Unit::TB)).unwrap(), n);
    }
    for &n in &[1_230_000_000_000_000u64] {
        assert_eq!(parse(&format_to(n, Unit::PB)).unwrap(), n);
    }
    // every byte count round-trips through B
    for &n in &[0u64, 1, 7, 999, 123_456_789, u64::MAX] {
        assert_eq!(parse(&format_to(n, Unit::B)).unwrap(), n);
    }
}

#[test]
fn format_after_parse_is_canonical() {
    // the same unit with at most two fractional digits reproduces the input,
    // trailing zeros trimmed
    assert_eq!(format_to(parse("1.2 KB").unwrap(), Unit::KB), "1.2 KB");
    assert_eq!(format_to(parse("1.20 KB").unwrap(), Unit::KB), "1.2 KB");
    assert_eq!(format_to(parse("1.23 KiB").unwrap(), Unit::KIB), "1.23 KiB");
    assert_eq!(format_to(parse("0.5 MiB").unwrap(), Unit::MIB), "0.5 MiB");
    assert_eq!(format_to(parse("12.34 PiB").unwrap(), Unit::PIB), "12.34 PiB");
    assert_eq!(format_to(parse("042.50 TB").unwrap(), Unit::TB), "42.5 TB");
    assert_eq!(format_to(parse("7 B").unwrap(), Unit::B), "7 B");
}
