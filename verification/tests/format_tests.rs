use bytefmt::format_to;
use bytefmt::Unit;

#[test]
fn test_format() {
    assert_eq!(bytefmt::fmt::format(123), "123 B");
    assert_eq!(bytefmt::fmt::format(1_230), "1.23 KB");
    assert_eq!(bytefmt::fmt::format(1_230_000), "1.23 MB");
    assert_eq!(bytefmt::fmt::format(1_230_000_000), "1.23 GB");
    assert_eq!(bytefmt::fmt::format(1_230_000_000_000), "1.23 TB");
    assert_eq!(bytefmt::fmt::format(1_230_000_000_000_000), "1.23 PB");
}

#[test]
fn test_format_to() {
    assert_eq!(format_to(123, Unit::B), "123 B");
    assert_eq!(format_to(1_245, Unit::KB), "1.25 KB");
    assert_eq!(format_to(1_245_000, Unit::MB), "1.25 MB");
    assert_eq!(format_to(1_245_000_000, Unit::GB), "1.25 GB");
    assert_eq!(format_to(1_245_000_000_000, Unit::TB), "1.25 TB");
    assert_eq!(format_to(1_245_000_000_000_000, Unit::PB), "1.25 PB");
    assert_eq!(format_to(1_275, Unit::KIB), "1.25 KiB");
    assert_eq!(format_to(1_306_525, Unit::MIB), "1.25 MiB");
    assert_eq!(format_to(1_337_882_312, Unit::GIB), "1.25 GiB");
    assert_eq!(format_to(1_369_991_488_208, Unit::TIB), "1.25 TiB");
    assert_eq!(format_to(1_402_871_283_925_909, Unit::PIB), "1.25 PiB");

    assert_eq!(format_to(500, Unit::KB), "0.5 KB");
    assert_eq!(format_to(500_000, Unit::MB), "0.5 MB");
    assert_eq!(format_to(500_000_000, Unit::GB), "0.5 GB");
    assert_eq!(format_to(500_000_000_000, Unit::TB), "0.5 TB");
    assert_eq!(format_to(500_000_000_000_000, Unit::PB), "0.5 PB");
    assert_eq!(format_to(512, Unit::KIB), "0.5 KiB");
    assert_eq!(format_to(524_288, Unit::MIB), "0.5 MiB");
    assert_eq!(format_to(536_870_912, Unit::GIB), "0.5 GiB");
    assert_eq!(format_to(549_755_813_888, Unit::TIB), "0.5 TiB");
    assert_eq!(format_to(562_949_953_421_312, Unit::PIB), "0.5 PiB");
}

#[test]
fn trims_trailing_zeros() {
    assert_eq!(format_to(500, Unit::KB), "0.5 KB");
    assert_eq!(format_to(123, Unit::B), "123 B");
    assert_eq!(format_to(1_000, Unit::KB), "1 KB");
    assert_eq!(format_to(1_200, Unit::KB), "1.2 KB");
    assert_eq!(format_to(1_230, Unit::KB), "1.23 KB");
    assert_eq!(format_to(0, Unit::KB), "0 KB");
    assert_eq!(format_to(0, Unit::B), "0 B");
}

#[test]
fn auto_scaling_boundaries() {
    assert_eq!(bytefmt::fmt::format(0), "0 B");
    assert_eq!(bytefmt::fmt::format(999), "999 B");
    assert_eq!(bytefmt::fmt::format(1_000), "1 KB");
    assert_eq!(bytefmt::fmt::format(999_994), "999.99 KB");
    assert_eq!(bytefmt::fmt::format(999_999), "1000 KB");
    assert_eq!(bytefmt::fmt::format(1_000_000), "1 MB");
    assert_eq!(bytefmt::fmt::format(999_999_999), "1000 MB");
    assert_eq!(bytefmt::fmt::format(1_000_000_000), "1 GB");
    assert_eq!(bytefmt::fmt::format(1_000_000_000_000), "1 TB");
    assert_eq!(bytefmt::fmt::format(1_000_000_000_000_000), "1 PB");
    assert_eq!(bytefmt::fmt::format(u64::MAX), "18446.74 PB");
}

#[test]
fn rounds_half_away_from_zero() {
    assert_eq!(format_to(1_245, Unit::KB), "1.25 KB");
    assert_eq!(format_to(1_244, Unit::KB), "1.24 KB");
    assert_eq!(format_to(5, Unit::KB), "0.01 KB");
    assert_eq!(format_to(4, Unit::KB), "0 KB");
    assert_eq!(format_to(1_536, Unit::KIB), "1.5 KiB");
}

#[test]
fn formats_largest_counts() {
    assert_eq!(format_to(u64::MAX, Unit::B), "18446744073709551615 B");
    assert_eq!(format_to(u64::MAX, Unit::PIB), "16384 PiB");
}
