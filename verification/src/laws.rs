//! Laws relating the parser and the formatter: how a size string decomposes,
//! that parsing ignores letter case and the width of the separator, and that
//! formatting and parsing invert each other.

use crate::convert::{bytes_of, lemma_div_mul_cancel};
use crate::digits::{
    all_digits, dec_str, digit_char, digits_val, is_digit_char, lemma_dec_str_props,
    lemma_pow10_pos, pow10, sat64,
};
use crate::fmt::{hundredths, render_number, spec_format_to};
use crate::parse::{
    binary_prefix, decimal_prefix, digit_run_end, is_b_char, is_i_char,
    lemma_digit_run_end_is, lemma_space_run_end_is, space_run_end, spec_parse, spec_parse_size,
    unit_of_symbol,
};
use crate::unit::Unit;
use vstd::arithmetic::div_mod::{
    lemma_fundamental_div_mod, lemma_fundamental_div_mod_converse,
};
use vstd::prelude::*;

verus! {

/// A run of `n` spaces.
pub open spec fn spaces(n: nat) -> Seq<char> {
    Seq::new(n, |i: int| ' ')
}

/// A size string assembled from its parts: the integer digits, the fraction
/// behind a point when there is one, `sp` spaces, and a unit symbol.
pub open spec fn assemble(intd: Seq<char>, frac: Seq<char>, sp: nat, sym: Seq<char>) -> Seq<
    char,
> {
    intd + (if frac.len() > 0 {
        seq!['.'] + frac
    } else {
        Seq::<char>::empty()
    }) + spaces(sp) + sym
}

/// A symbol that spells a unit starts with a letter: not a digit, not a
/// point, not a space.
proof fn lemma_symbol_head(sym: Seq<char>)
    requires
        unit_of_symbol(sym) is Some,
        sym.len() > 0,
    ensures
        !is_digit_char(sym[0]),
        sym[0] != '.',
        sym[0] != ' ',
{
}

/// Every assembled size string parses, and parses to exactly its parts: the
/// grammar is unambiguous over assembled strings, whatever the number of
/// spaces in front of a present unit symbol.
pub proof fn lemma_assemble_parses(intd: Seq<char>, frac: Seq<char>, sp: nat, sym: Seq<char>)
    requires
        all_digits(intd),
        intd.len() >= 1,
        all_digits(frac),
        unit_of_symbol(sym) is Some,
        sym.len() == 0 ==> sp == 0,
    ensures
        spec_parse_size(assemble(intd, frac, sp, sym)) == Some(
            (intd, frac, unit_of_symbol(sym).unwrap()),
        ),
{
    let s = assemble(intd, frac, sp, sym);
    let il = intd.len() as int;
    let fl = frac.len() as int;
    if sym.len() > 0 {
        lemma_symbol_head(sym);
    }
    if frac.len() > 0 {
        let e2 = il + 1 + fl;
        assert forall|x: int| 0 <= x < il implies is_digit_char(#[trigger] s[x]) by {
            assert(s[x] == intd[x]);
        }
        assert(s[il] == '.');
        lemma_digit_run_end_is(s, 0, il);
        assert forall|x: int| il + 1 <= x < e2 implies is_digit_char(#[trigger] s[x]) by {
            assert(s[x] == frac[x - (il + 1)]);
        }
        assert(e2 < s.len() ==> !is_digit_char(s[e2])) by {
            if e2 < s.len() {
                if sp > 0 {
                    assert(s[e2] == ' ');
                } else {
                    assert(s[e2] == sym[0]);
                }
            }
        }
        lemma_digit_run_end_is(s, il + 1, e2);
        assert forall|x: int| e2 <= x < e2 + sp implies #[trigger] s[x] == ' ' by {
            assert(s[x] == spaces(sp)[x - e2]);
        }
        assert(e2 + sp < s.len() ==> s[e2 + sp] != ' ') by {
            if e2 + sp < s.len() {
                assert(s[e2 + sp] == sym[0]);
            }
        }
        lemma_space_run_end_is(s, e2, e2 + sp);
        assert(s.subrange(0, il) =~= intd);
        assert(s.subrange(il + 1, e2) =~= frac);
        assert(s.subrange(e2 + sp, s.len() as int) =~= sym);
    } else {
        assert forall|x: int| 0 <= x < il implies is_digit_char(#[trigger] s[x]) by {
            assert(s[x] == intd[x]);
        }
        assert(il < s.len() ==> !is_digit_char(s[il])) by {
            if il < s.len() {
                if sp > 0 {
                    assert(s[il] == ' ');
                } else {
                    assert(s[il] == sym[0]);
                }
            }
        }
        lemma_digit_run_end_is(s, 0, il);
        assert(il < s.len() ==> s[il] != '.') by {
            if il < s.len() {
                if sp > 0 {
                    assert(s[il] == ' ');
                } else {
                    assert(s[il] == sym[0]);
                }
            }
        }
        assert forall|x: int| il <= x < il + sp implies #[trigger] s[x] == ' ' by {
            assert(s[x] == spaces(sp)[x - il]);
        }
        assert(il + sp < s.len() ==> s[il + sp] != ' ') by {
            if il + sp < s.len() {
                assert(s[il + sp] == sym[0]);
            }
        }
        lemma_space_run_end_is(s, il, il + sp);
        assert(s.subrange(0, il) =~= intd);
        assert(s.subrange(il + sp, s.len() as int) =~= sym);
        assert(frac =~= Seq::<char>::empty());
    }
}

/// Each unit's own display symbol spells that unit.
pub proof fn lemma_symbol_spells_unit(u: Unit)
    ensures
        unit_of_symbol(u.spec_symbol()) == Some(u),
{
}

/// How the hundredths split into the rendered pieces: the integer part and
/// the two fractional digits.
proof fn lemma_hundredths_pieces(h: nat)
    ensures
        h / 100 * 10 + (h / 10) % 10 == h / 10,
        (h / 10) % 10 == (h % 100) / 10,
        h % 10 == (h % 100) % 10,
        h / 100 * 100 + h % 100 == h,
        h % 100 < 100,
        (h / 10) % 10 < 10,
        h % 10 < 10,
{
    let a = (h / 100) as int;
    let r2 = (h % 100) as int;
    let b = (h / 10) as int;
    let r1 = (h % 10) as int;
    lemma_fundamental_div_mod(h as int, 100);
    lemma_fundamental_div_mod(h as int, 10);
    // r2 == 10 * (b - 10 * a) + r1, so b - 10 * a is r2's tens digit
    assert(r2 == 10 * (b - 10 * a) + r1);
    lemma_fundamental_div_mod_converse(r2, 10, b - 10 * a, r1);
    // b == 10 * a + (b - 10 * a) pins b's own digit
    lemma_fundamental_div_mod_converse(b, 10, a, b - 10 * a);
}

/// A rendered magnitude with a unit symbol parses back: the string
/// `render_number(h) + " " + symbol(u)` is accepted, and it means exactly
/// `floor(h * divisor(u) / 100)` bytes.
pub proof fn lemma_render_parses(h: nat, u: Unit)
    ensures
        spec_parse(render_number(h) + seq![' '] + u.spec_symbol()) == Some(
            sat64(h * u.spec_divisor() / 100),
        ),
{
    let d = u.spec_divisor();
    let a = h / 100;
    let intd = dec_str(a);
    lemma_dec_str_props(a);
    lemma_symbol_spells_unit(u);
    lemma_hundredths_pieces(h);
    let sym = u.spec_symbol();
    if h % 100 == 0 {
        let s = assemble(intd, Seq::<char>::empty(), 1, sym);
        assert(render_number(h) + seq![' '] + sym =~= s) by {
            assert(spaces(1) =~= seq![' ']);
        }
        lemma_assemble_parses(intd, Seq::<char>::empty(), 1, sym);
        // bytes_of == a * d == h * d / 100
        assert(bytes_of(intd, Seq::<char>::empty(), u) == (a * pow10(0) + 0) * d / pow10(0));
        assert((a * 1 + 0) * d / 1 == a * d);
        lemma_div_mul_cancel(a * d, 1, 100);
        assert(a * d * 100 == h * d && 1 * 100 == 100) by (nonlinear_arith)
            requires
                h == a * 100,
        ;
    } else if h % 10 == 0 {
        let c1 = digit_char((h / 10) % 10);
        let frac = seq![c1];
        let s = assemble(intd, frac, 1, sym);
        assert(render_number(h) + seq![' '] + sym =~= s) by {
            assert(spaces(1) =~= seq![' ']);
            assert(seq!['.', c1] =~= seq!['.'] + seq![c1]);
        }
        lemma_assemble_parses(intd, frac, 1, sym);
        crate::digits::lemma_digits_val_singleton(c1);
        assert(digits_val(frac) == (h / 10) % 10);
        assert(pow10(1) == 10) by {
            reveal_with_fuel(pow10, 2);
        }
        let b = h / 10;
        assert(bytes_of(intd, frac, u) == (a * 10 + (h / 10) % 10) * d / 10);
        assert(a * 10 + (h / 10) % 10 == b);
        // b * d / 10 == h * d / 100
        lemma_div_mul_cancel(b * d, 10, 10);
        assert(b * d * 10 == h * d && 10 * 10 == 100) by (nonlinear_arith)
            requires
                h == b * 10,
        ;
    } else {
        let c1 = digit_char((h / 10) % 10);
        let c2 = digit_char(h % 10);
        let frac = seq![c1, c2];
        let s = assemble(intd, frac, 1, sym);
        assert(render_number(h) + seq![' '] + sym =~= s) by {
            assert(spaces(1) =~= seq![' ']);
            assert(seq!['.', c1, c2] =~= seq!['.'] + seq![c1, c2]);
        }
        lemma_assemble_parses(intd, frac, 1, sym);
        crate::digits::lemma_digits_val_pair(c1, c2);
        assert(digits_val(frac) == (h % 100) / 10 * 10 + (h % 100) % 10);
        lemma_fundamental_div_mod((h % 100) as int, 10);
        assert(digits_val(frac) == h % 100);
        assert(pow10(2) == 100) by {
            reveal_with_fuel(pow10, 3);
        }
        assert(bytes_of(intd, frac, u) == (a * 100 + h % 100) * d / 100);
        assert(a * 100 + h % 100 == h);
    }
}

/// Round trip for decimal units: a byte count that is a whole multiple of a
/// hundredth of the unit (any count at all, for B) formats to a string that
/// parses back to exactly that count.
pub proof fn lemma_parse_format_round_trip(n: u64, u: Unit)
    requires
        u.is_decimal(),
        u.spec_divisor() >= 100 ==> n as int % (u.spec_divisor() as int / 100) == 0,
    ensures
        spec_parse(spec_format_to(n, u)) == Some(n),
{
    let d = u.spec_divisor() as int;
    let h = hundredths(n, u);
    if d < 100 {
        // unit B: the hundredths are exact outright
        lemma_fundamental_div_mod_converse(200 * n as int + 1, 2, 100 * n as int, 1);
        assert(h == 100 * n);
    } else {
        let g = d / 100;
        assert(g * 100 == d);
        let c = n as int / g;
        lemma_fundamental_div_mod(n as int, g);
        assert(n == g * c);
        assert(200 * n as int + d == c * (2 * d) + d) by (nonlinear_arith)
            requires
                n == g * c,
                d == g * 100,
        ;
        lemma_fundamental_div_mod_converse(200 * n as int + d, 2 * d, c, d);
        assert(h == c);
    }
    assert(h * d == 100 * n) by (nonlinear_arith)
        requires
            d < 100 ==> d == 1 && h == 100 * n,
            d >= 100 ==> n == (d / 100) * (h as int) && d == (d / 100) * 100,
    ;
    lemma_render_parses(h, u);
    lemma_fundamental_div_mod_converse(100 * n as int, 100, n as int, 0);
    assert(h * u.spec_divisor() / 100 == n);
}

/// The separator before the unit symbol is free: any number of spaces
/// (including none) in front of a present symbol yields the same parse.
pub proof fn lemma_separator_width_irrelevant(
    intd: Seq<char>,
    frac: Seq<char>,
    sp1: nat,
    sp2: nat,
    sym: Seq<char>,
)
    requires
        all_digits(intd),
        intd.len() >= 1,
        all_digits(frac),
        unit_of_symbol(sym) is Some,
        sym.len() == 0 ==> sp1 == 0 && sp2 == 0,
    ensures
        spec_parse(assemble(intd, frac, sp1, sym)) == spec_parse(assemble(intd, frac, sp2, sym)),
        spec_parse(assemble(intd, frac, sp1, sym)) is Some,
{
    lemma_assemble_parses(intd, frac, sp1, sym);
    lemma_assemble_parses(intd, frac, sp2, sym);
}

/// The magnitude spelled by the digit parts, in hundredths.
pub open spec fn magnitude_hundredths(intd: Seq<char>, frac: Seq<char>) -> nat
    recommends
        frac.len() <= 2,
{
    digits_val(intd) * 100 + digits_val(frac) * pow10((2 - frac.len()) as nat)
}

/// Idempotence: formatting a parsed string back into its own unit reproduces
/// the string's magnitude in canonical form — the same hundredths, rendered
/// with trailing fractional zeros (and leading integer zeros) normalized
/// away.
///
/// This needs the magnitude of the input to survive the trip: at most two
/// fractional digits (hundredths of a unit are what formatting keeps), a byte
/// count within the 64-bit range, and, for the unit B alone, a magnitude that
/// is a whole number of bytes.
pub proof fn lemma_format_parse_idempotent(s: Seq<char>)
    requires
        spec_parse_size(s) is Some,
        spec_parse_size(s).unwrap().1.len() <= 2,
        bytes_of(
            spec_parse_size(s).unwrap().0,
            spec_parse_size(s).unwrap().1,
            spec_parse_size(s).unwrap().2,
        ) <= u64::MAX,
        spec_parse_size(s).unwrap().2 == Unit::B ==> magnitude_hundredths(
            spec_parse_size(s).unwrap().0,
            spec_parse_size(s).unwrap().1,
        ) % 100 == 0,
    ensures
        spec_format_to(spec_parse(s).unwrap(), spec_parse_size(s).unwrap().2) == render_number(
            magnitude_hundredths(spec_parse_size(s).unwrap().0, spec_parse_size(s).unwrap().1),
        ) + seq![' '] + spec_parse_size(s).unwrap().2.spec_symbol(),
{
    let t = spec_parse_size(s).unwrap();
    let intd = t.0;
    let frac = t.1;
    let u = t.2;
    let d = u.spec_divisor() as int;
    let k = frac.len();
    let num = (digits_val(intd) * pow10(k) + digits_val(frac)) as int;
    let h0 = magnitude_hundredths(intd, frac) as int;
    let m = pow10((2 - k) as nat) as int;
    let b = bytes_of(intd, frac, u) as int;
    // h0 is num scaled to two fractional digits
    crate::digits::lemma_pow10_adds(k, (2 - k) as nat);
    assert(pow10(2) == 100) by {
        reveal_with_fuel(pow10, 3);
    }
    lemma_pow10_pos(k);
    lemma_pow10_pos((2 - k) as nat);
    assert(h0 == num * m) by (nonlinear_arith)
        requires
            h0 == digits_val(intd) * 100 + digits_val(frac) * m,
            num == digits_val(intd) * pow10(k) + digits_val(frac),
            pow10(k) * m == 100,
            m >= 1,
    ;
    // b == floor(h0 * d / 100)
    lemma_div_mul_cancel((num * d) as nat, pow10(k), m as nat);
    assert(num * d * m == h0 * d && pow10(k) as int * m == 100) by (nonlinear_arith)
        requires
            h0 == num * m,
            pow10(k) * m == 100,
    ;
    assert(b == h0 * d / 100);
    // the rounded hundredths of b are h0 again
    lemma_fundamental_div_mod(h0 * d, 100);
    let rem = (h0 * d) % 100;
    if u == Unit::B {
        assert(h0 % 100 == 0);
        let a0 = h0 / 100;
        lemma_fundamental_div_mod(h0, 100);
        assert(h0 * d == 100 * a0) by (nonlinear_arith)
            requires
                d == 1,
                h0 == 100 * a0,
        ;
        lemma_fundamental_div_mod_converse(h0 * d, 100, a0, 0);
        assert(rem == 0);
    } else {
        assert(d >= 1000);
    }
    assert(0 <= d - 2 * rem < 2 * d);
    assert(200 * b + d == h0 * (2 * d) + (d - 2 * rem)) by (nonlinear_arith)
        requires
            h0 * d == 100 * b + rem,
    ;
    lemma_fundamental_div_mod_converse(200 * b + d, 2 * d, h0, d - 2 * rem);
    assert(hundredths(sat64(b as nat), u) == h0);
    assert(spec_parse(s).unwrap() == sat64(b as nat));
}

/// Whether two characters are equal up to ASCII letter case.
pub open spec fn eq_ci_char(a: char, b: char) -> bool {
    ||| a == b
    ||| (65 <= a as int <= 90 && b as int == a as int + 32)
    ||| (65 <= b as int <= 90 && a as int == b as int + 32)
}

/// Whether two strings are equal up to ASCII letter case.
pub open spec fn eq_ci(s: Seq<char>, t: Seq<char>) -> bool {
    &&& s.len() == t.len()
    &&& forall|i: int| 0 <= i < s.len() ==> eq_ci_char(s[i], t[i])
}

/// Characters that the grammar distinguishes are untouched by case folding,
/// and the characters of unit symbols keep their reading.
proof fn lemma_eq_ci_classes(a: char, b: char)
    requires
        eq_ci_char(a, b),
    ensures
        is_digit_char(a) <==> is_digit_char(b),
        is_digit_char(a) ==> a == b,
        (a == '.') <==> (b == '.'),
        (a == ' ') <==> (b == ' '),
        is_b_char(a) <==> is_b_char(b),
        is_i_char(a) <==> is_i_char(b),
        decimal_prefix(a) == decimal_prefix(b),
        binary_prefix(a) == binary_prefix(b),
{
}

proof fn lemma_digit_run_end_ci(s: Seq<char>, t: Seq<char>, i: int)
    requires
        eq_ci(s, t),
        0 <= i <= s.len(),
    ensures
        digit_run_end(s, i) == digit_run_end(t, i),
    decreases s.len() - i,
{
    if i < s.len() {
        lemma_eq_ci_classes(s[i], t[i]);
        if is_digit_char(s[i]) {
            lemma_digit_run_end_ci(s, t, i + 1);
        }
    }
}

proof fn lemma_space_run_end_ci(s: Seq<char>, t: Seq<char>, i: int)
    requires
        eq_ci(s, t),
        0 <= i <= s.len(),
    ensures
        space_run_end(s, i) == space_run_end(t, i),
    decreases s.len() - i,
{
    if i < s.len() {
        lemma_eq_ci_classes(s[i], t[i]);
        if s[i] == ' ' {
            lemma_space_run_end_ci(s, t, i + 1);
        }
    }
}

proof fn lemma_unit_of_symbol_ci(s: Seq<char>, t: Seq<char>)
    requires
        eq_ci(s, t),
    ensures
        unit_of_symbol(s) == unit_of_symbol(t),
{
    if 1 <= s.len() <= 3 {
        lemma_eq_ci_classes(s[0], t[0]);
        if s.len() >= 2 {
            lemma_eq_ci_classes(s[1], t[1]);
        }
        if s.len() >= 3 {
            lemma_eq_ci_classes(s[2], t[2]);
        }
    }
}

/// Case insensitivity: two inputs that differ only in ASCII letter case
/// parse identically — same acceptance, same digits, same unit, same byte
/// count.
pub proof fn lemma_parse_case_insensitive(s: Seq<char>, t: Seq<char>)
    requires
        eq_ci(s, t),
    ensures
        spec_parse_size(s) == spec_parse_size(t),
        spec_parse(s) == spec_parse(t),
{
    lemma_digit_run_end_ci(s, t, 0);
    let e1 = digit_run_end(s, 0);
    crate::parse::lemma_digit_run_end(s, 0);
    if e1 == 0 {
        return ;
    }
    assert forall|x: int| 0 <= x < e1 implies s[x] == t[x] by {
        lemma_eq_ci_classes(s[x], t[x]);
    }
    assert(s.subrange(0, e1) =~= t.subrange(0, e1));
    if e1 < s.len() {
        lemma_eq_ci_classes(s[e1], t[e1]);
    }
    let j = if e1 < s.len() && s[e1] == '.' {
        let e2 = digit_run_end(s, e1 + 1);
        lemma_digit_run_end_ci(s, t, e1 + 1);
        crate::parse::lemma_digit_run_end(s, e1 + 1);
        if e2 == e1 + 1 {
            return ;
        }
        assert forall|x: int| e1 + 1 <= x < e2 implies s[x] == t[x] by {
            lemma_eq_ci_classes(s[x], t[x]);
        }
        assert(s.subrange(e1 + 1, e2) =~= t.subrange(e1 + 1, e2));
        e2
    } else {
        e1
    };
    lemma_space_run_end_ci(s, t, j);
    let k = space_run_end(s, j);
    crate::parse::lemma_space_run_end(s, j);
    assert(eq_ci(s.subrange(k, s.len() as int), t.subrange(k, t.len() as int))) by {
        assert forall|x: int| 0 <= x < s.len() - k implies eq_ci_char(
            #[trigger] s.subrange(k, s.len() as int)[x],
            t.subrange(k, t.len() as int)[x],
        ) by {
            assert(s.subrange(k, s.len() as int)[x] == s[k + x]);
        }
    }
    lemma_unit_of_symbol_ci(s.subrange(k, s.len() as int), t.subrange(k, t.len() as int));
}

} // verus!
