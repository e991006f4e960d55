use bytefmt::parse;
use bytefmt::parse_size_unit;
use bytefmt::Unit;

const INVALID: &str = "Parse Error. Invalid byte format.";

/// The magnitude's digit parts as strings, with the unit.
fn msu(s: &str) -> (String, String, Unit) {
    let (m, u) = parse_size_unit(s).unwrap();
    (
        m.int_digits.iter().collect::<String>(),
        m.frac_digits.iter().collect::<String>(),
        u,
    )
}

#[test]
fn test_parse_size_unit() {
    assert_eq!(msu("123"), ("123".to_string(), "".to_string(), Unit::B));
    assert_eq!(msu("12.34"), ("12".to_string(), "34".to_string(), Unit::B));
    assert_eq!(msu("123B"), ("123".to_string(), "".to_string(), Unit::B));
    assert_eq!(msu("12.34B"), ("12".to_string(), "34".to_string(), Unit::B));

    assert_eq!(msu("12.34kb"), ("12".to_string(), "34".to_string(), Unit::KB));
    assert_eq!(msu("12.34kib"), ("12".to_string(), "34".to_string(), Unit::KIB));
    assert_eq!(msu("12.34KB"), ("12".to_string(), "34".to_string(), Unit::KB));
    assert_eq!(msu("12.34KiB"), ("12".to_string(), "34".to_string(), Unit::KIB));

    assert_eq!(msu("12.34mb"), ("12".to_string(), "34".to_string(), Unit::MB));
    assert_eq!(msu("12.34mib"), ("12".to_string(), "34".to_string(), Unit::MIB));
    assert_eq!(msu("12.34MB"), ("12".to_string(), "34".to_string(), Unit::MB));
    assert_eq!(msu("12.34MiB"), ("12".to_string(), "34".to_string(), Unit::MIB));

    assert_eq!(msu("12.34gb"), ("12".to_string(), "34".to_string(), Unit::GB));
    assert_eq!(msu("12.34gib"), ("12".to_string(), "34".to_string(), Unit::GIB));
    assert_eq!(msu("12.34GB"), ("12".to_string(), "34".to_string(), Unit::GB));
    assert_eq!(msu("12.34GiB"), ("12".to_string(), "34".to_string(), Unit::GIB));

    assert_eq!(msu("12.34tb"), ("12".to_string(), "34".to_string(), Unit::TB));
    assert_eq!(msu("12.34tib"), ("12".to_string(), "34".to_string(), Unit::TIB));
    assert_eq!(msu("12.34TB"), ("12".to_string(), "34".to_string(), Unit::TB));
    assert_eq!(msu("12.34TiB"), ("12".to_string(), "34".to_string(), Unit::TIB));

    assert_eq!(msu("12.34pb"), ("12".to_string(), "34".to_string(), Unit::PB));
    assert_eq!(msu("12.34pib"), ("12".to_string(), "34".to_string(), Unit::PIB));
    assert_eq!(msu("12.34PB"), ("12".to_string(), "34".to_string(), Unit::PB));
    assert_eq!(msu("12.34PiB"), ("12".to_string(), "34".to_string(), Unit::PIB));

    assert_eq!(msu("12.34 kb"), ("12".to_string(), "34".to_string(), Unit::KB));
    assert_eq!(msu("12.34 kib"), ("12".to_string(), "34".to_string(), Unit::KIB));
    assert_eq!(msu("12.34 KB"), ("12".to_string(), "34".to_string(), Unit::KB));
    assert_eq!(msu("12.34 KiB"), ("12".to_string(), "34".to_string(), Unit::KIB));

    assert_eq!(msu("12.34 mb"), ("12".to_string(), "34".to_string(), Unit::MB));
    assert_eq!(msu("12.34 mib"), ("12".to_string(), "34".to_string(), Unit::MIB));
    assert_eq!(msu("12.34 MB"), ("12".to_string(), "34".to_string(), Unit::MB));
    assert_eq!(msu("12.34 MiB"), ("12".to_string(), "34".to_string(), Unit::MIB));

    assert_eq!(msu("12.34 gb"), ("12".to_string(), "34".to_string(), Unit::GB));
    assert_eq!(msu("12.34 gib"), ("12".to_string(), "34".to_string(), Unit::GIB));
    assert_eq!(msu("12.34 GB"), ("12".to_string(), "34".to_string(), Unit::GB));
    assert_eq!(msu("12.34 GiB"), ("12".to_string(), "34".to_string(), Unit::GIB));

    assert_eq!(msu("12.34 tb"), ("12".to_string(), "34".to_string(), Unit::TB));
    assert_eq!(msu("12.34 tib"), ("12".to_string(), "34".to_string(), Unit::TIB));
    assert_eq!(msu("12.34 TB"), ("12".to_string(), "34".to_string(), Unit::TB));
    assert_eq!(msu("12.34 TiB"), ("12".to_string(), "34".to_string(), Unit::TIB));

    assert_eq!(msu("12.34 pb"), ("12".to_string(), "34".to_string(), Unit::PB));
    assert_eq!(msu("12.34 pib"), ("12".to_string(), "34".to_string(), Unit::PIB));
    assert_eq!(msu("12.34 PB"), ("12".to_string(), "34".to_string(), Unit::PB));
    assert_eq!(msu("12.34 PiB"), ("12".to_string(), "34".to_string(), Unit::PIB));
}

#[test]
fn test_parse() {
    assert_eq!(parse("123").unwrap(), 123);
    assert_eq!(parse("1.23B").unwrap(), 1);
    assert_eq!(parse("1.23KB").unwrap(), 1_230);
    assert_eq!(parse("1.23MB").unwrap(), 1_230_000);
    assert_eq!(parse("1.23GB").unwrap(), 1_230_000_000);
    assert_eq!(parse("1.23TB").unwrap(), 1_230_000_000_000);
    assert_eq!(parse("1.23PB").unwrap(), 1_230_000_000_000_000);
    assert_eq!(parse("1.23KIB").unwrap(), 1_259);
    assert_eq!(parse("1.23MIB").unwrap(), 1_289_748);
    assert_eq!(parse("1.23GIB").unwrap(), 1_320_702_443);
    assert_eq!(parse("1.23TIB").unwrap(), 1_352_399_302_164);
    assert_eq!(parse("1.23PIB").unwrap(), 1_384_856_885_416_427);
}

#[test]
fn default_unit_is_bytes() {
    assert_eq!(parse("123").unwrap(), 123);
    let (_, u) = parse_size_unit("123").unwrap();
    assert_eq!(u, Unit::B);
}

#[test]
fn case_insensitive_units() {
    assert_eq!(parse("1.23kb").unwrap(), 1_230);
    assert_eq!(parse("1.23KB").unwrap(), 1_230);
    assert_eq!(parse("1.23Kb").unwrap(), 1_230);
    assert_eq!(parse("1.23kB").unwrap(), 1_230);
    assert_eq!(parse("1.23kIb").unwrap(), parse("1.23KiB").unwrap());
}

#[test]
fn separator_is_optional() {
    assert_eq!(parse("1.23 KB").unwrap(), parse("1.23KB").unwrap());
    assert_eq!(parse("1.23  KB").unwrap(), parse("1.23KB").unwrap());
    assert_eq!(parse("123 B").unwrap(), parse("123B").unwrap());
}

#[test]
fn decimal_and_binary_diverge() {
    assert_eq!(parse("1.23 KB").unwrap(), 1_230);
    assert_eq!(parse("1.23 KiB").unwrap(), 1_259);
}

#[test]
fn invalid_inputs_fail() {
    assert_eq!(parse(""), Err(INVALID));
    assert_eq!(parse("abc"), Err(INVALID));
    assert_eq!(parse("-5B"), Err(INVALID));
    assert_eq!(parse("5 KBx"), Err(INVALID));
    assert_eq!(parse("5K"), Err(INVALID));
    assert_eq!(parse("5 iB"), Err(INVALID));
    assert_eq!(parse("12."), Err(INVALID));
    assert_eq!(parse(".5"), Err(INVALID));
    assert_eq!(parse("1.2.3"), Err(INVALID));
    assert_eq!(parse(" 123"), Err(INVALID));
    assert_eq!(parse("1 23"), Err(INVALID));
    assert_eq!(parse("5 kb "), Err(INVALID));
    assert_eq!(parse("+5B"), Err(INVALID));
    assert_eq!(parse("1e3"), Err(INVALID));
    assert_eq!(parse("123 "), Err(INVALID));
    assert_eq!(parse("12.5  "), Err(INVALID));
}

#[test]
fn fractions_truncate_toward_zero() {
    assert_eq!(parse("1.9 B").unwrap(), 1);
    assert_eq!(parse("0.5 KiB").unwrap(), 512);
    assert_eq!(parse("0.001 KiB").unwrap(), 1);
    assert_eq!(parse("0.0009 KiB").unwrap(), 0);
    assert_eq!(parse("0.0000000001 PB").unwrap(), 100_000);
}

#[test]
fn parse_saturates_at_u64_max() {
    assert_eq!(parse("18446744073709551615").unwrap(), u64::MAX);
    assert_eq!(parse("18446744073709551616").unwrap(), u64::MAX);
    assert_eq!(parse("99999999999999999999999999").unwrap(), u64::MAX);
    assert_eq!(parse("99999 PB").unwrap(), u64::MAX);
}
