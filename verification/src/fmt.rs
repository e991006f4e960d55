//! The formatter: a byte count is rendered as its magnitude in a unit,
//! rounded half away from zero to hundredths of the unit, with trailing
//! zeros of the fraction (and a bare trailing point) trimmed, a space, and
//! the unit's display symbol. `format` first auto-selects the decimal unit
//! by magnitude thresholds.

use crate::digits::{dec_str, digit_char};
use crate::unit::{Unit, GB, KB, MB, PB, TB};
use vstd::arithmetic::div_mod::{
    lemma_fundamental_div_mod, lemma_fundamental_div_mod_converse,
};
use vstd::prelude::*;
use vstd::string::StringExecFns;

verus! {

/// The magnitude of `bytes` in unit `u`, in hundredths of the unit, rounded
/// half away from zero.
pub open spec fn hundredths(bytes: u64, u: Unit) -> nat {
    ((200 * bytes as int + u.spec_divisor() as int) / (2 * u.spec_divisor() as int)) as nat
}

/// A magnitude of `h` hundredths rendered with up to two fractional digits,
/// trailing zeros trimmed, a bare trailing point trimmed.
pub open spec fn render_number(h: nat) -> Seq<char> {
    if h % 100 == 0 {
        dec_str(h / 100)
    } else if h % 10 == 0 {
        dec_str(h / 100) + seq!['.', digit_char((h / 10) % 10)]
    } else {
        dec_str(h / 100) + seq!['.', digit_char((h / 10) % 10), digit_char(h % 10)]
    }
}

/// The string `format_to` returns: the rounded magnitude, a space, and the
/// unit's symbol.
pub open spec fn spec_format_to(bytes: u64, u: Unit) -> Seq<char> {
    render_number(hundredths(bytes, u)) + seq![' '] + u.spec_symbol()
}

/// The decimal unit that `format` auto-selects: the largest whose threshold
/// the byte count stays under, falling through to PB.
pub open spec fn auto_unit(bytes: u64) -> Unit {
    if bytes < 1_000 {
        Unit::B
    } else if bytes < 1_000_000 {
        Unit::KB
    } else if bytes < 1_000_000_000 {
        Unit::MB
    } else if bytes < 1_000_000_000_000 {
        Unit::GB
    } else if bytes < 1_000_000_000_000_000 {
        Unit::TB
    } else {
        Unit::PB
    }
}

/// The string `format` returns.
pub open spec fn spec_format(bytes: u64) -> Seq<char> {
    spec_format_to(bytes, auto_unit(bytes))
}

/// The one-character string for a digit value.
fn digit_str(d: u8) -> (r: &'static str)
    requires
        d < 10,
    ensures
        r@ =~= seq![digit_char(d as nat)],
{
    proof {
        reveal_strlit("0");
        reveal_strlit("1");
        reveal_strlit("2");
        reveal_strlit("3");
        reveal_strlit("4");
        reveal_strlit("5");
        reveal_strlit("6");
        reveal_strlit("7");
        reveal_strlit("8");
        reveal_strlit("9");
    }
    match d {
        0 => "0",
        1 => "1",
        2 => "2",
        3 => "3",
        4 => "4",
        5 => "5",
        6 => "6",
        7 => "7",
        8 => "8",
        _ => "9",
    }
}

/// Append the canonical decimal rendering of `n`.
fn push_decimal(out: &mut String, n: u128)
    ensures
        final(out)@ == old(out)@ + dec_str(n as nat),
    decreases n,
{
    if n >= 10 {
        push_decimal(out, n / 10);
    }
    out.append(digit_str((n % 10) as u8));
    proof {
        if n < 10 {
            assert(dec_str(n as nat) =~= seq![digit_char(n as nat)]);
            assert(out@ =~= old(out)@ + dec_str(n as nat));
        } else {
            assert(dec_str(n as nat) == dec_str((n as nat) / 10).push(digit_char((n as nat) % 10)));
            assert(out@ =~= old(out)@ + dec_str(n as nat));
        }
    }
}

/// The canonical display symbol of a unit.
fn symbol_str(unit: Unit) -> (r: &'static str)
    ensures
        r@ == unit.spec_symbol(),
{
    proof {
        reveal_strlit("B");
        reveal_strlit("KB");
        reveal_strlit("MB");
        reveal_strlit("GB");
        reveal_strlit("TB");
        reveal_strlit("PB");
        reveal_strlit("KiB");
        reveal_strlit("MiB");
        reveal_strlit("GiB");
        reveal_strlit("TiB");
        reveal_strlit("PiB");
    }
    match unit {
        Unit::B => "B",
        Unit::KB => "KB",
        Unit::MB => "MB",
        Unit::GB => "GB",
        Unit::TB => "TB",
        Unit::PB => "PB",
        Unit::KIB => "KiB",
        Unit::MIB => "MiB",
        Unit::GIB => "GiB",
        Unit::TIB => "TiB",
        Unit::PIB => "PiB",
    }
}

/// Format a byte count as a magnitude in the given unit.
///
/// The magnitude is the byte count divided by the unit's divisor, rounded
/// half away from zero to two fractional digits; trailing fractional zeros
/// and a bare point are trimmed, and the unit's symbol follows a space.
pub fn format_to(bytes: u64, unit: Unit) -> (r: String)
    ensures
        r@ == spec_format_to(bytes, unit),
{
    let d = unit.divisor();
    let h: u128 = (200 * (bytes as u128) + (d as u128)) / (2 * (d as u128));
    let ip: u128 = h / 100;
    let f2: u8 = (h % 100) as u8;
    proof {
        assert(h == hundredths(bytes, unit));
        lemma_fundamental_div_mod(h as int, 100);
        lemma_fundamental_div_mod(f2 as int, 10);
        // h / 10 == 10 * ip + f2 / 10 and h % 10 == f2 % 10
        lemma_fundamental_div_mod_converse(
            h as int,
            10,
            10 * ip as int + f2 as int / 10,
            f2 as int % 10,
        );
        // (h / 10) % 10 == f2 / 10
        lemma_fundamental_div_mod_converse(
            10 * ip as int + f2 as int / 10,
            10,
            ip as int,
            f2 as int / 10,
        );
    }
    let mut out = String::new();
    push_decimal(&mut out, ip);
    if f2 != 0 {
        proof {
            reveal_strlit(".");
        }
        out.append(".");
        out.append(digit_str(f2 / 10));
        if f2 % 10 != 0 {
            out.append(digit_str(f2 % 10));
        }
    }
    proof {
        assert(out@ =~= render_number(h as nat));
    }
    proof {
        reveal_strlit(" ");
    }
    out.append(" ");
    let sym = symbol_str(unit);
    out.append(sym);
    proof {
        assert(out@ =~= render_number(h as nat) + seq![' '] + unit.spec_symbol());
    }
    out
}

/// Format a byte count with an auto-selected decimal unit: B under 1000
/// bytes, then KB, MB, GB and TB under each next power of 1000, PB above.
pub fn format(bytes: u64) -> (r: String)
    ensures
        r@ == spec_format(bytes),
{
    if bytes < KB {
        format_to(bytes, Unit::B)
    } else if bytes < MB {
        format_to(bytes, Unit::KB)
    } else if bytes < GB {
        format_to(bytes, Unit::MB)
    } else if bytes < TB {
        format_to(bytes, Unit::GB)
    } else if bytes < PB {
        format_to(bytes, Unit::TB)
    } else {
        format_to(bytes, Unit::PB)
    }
}

} // verus!
