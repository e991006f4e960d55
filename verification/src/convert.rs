//! Converting an exact decimal magnitude and a unit into a byte count.
//!
//! The byte count of a magnitude with integer digits `I`, fractional digits
//! `F` (say `k` of them) and unit divisor `D` is
//! `floor((I * 10^k + F) * D / 10^k)`: the exact product, truncated toward
//! zero. The computation never leaves integer arithmetic: the fractional
//! contribution `floor(F * D / 10^k)` is obtained by long division, after the
//! fractional digits are padded or truncated to exactly `t` digits, where
//! `10^t` is a multiple of `D` — a cut that the proofs below show is exact.

use crate::digits::{
    all_digits, digit_val, digits_val, is_digit_char, lemma_digits_val_bound,
    lemma_digits_val_concat, lemma_pow10_adds, lemma_pow10_pos, pow10, sat64,
};
use crate::magnitude::Magnitude;
use crate::unit::Unit;
use vstd::arithmetic::div_mod::{
    lemma_fundamental_div_mod, lemma_fundamental_div_mod_converse, lemma_hoist_over_denominator,
};
use vstd::prelude::*;

verus! {

/// The byte count represented by the given digit parts and unit: the exact
/// product of the magnitude and the unit's divisor, truncated toward zero.
pub open spec fn bytes_of(intd: Seq<char>, frac: Seq<char>, u: Unit) -> nat {
    ((digits_val(intd) * pow10(frac.len()) + digits_val(frac)) * u.spec_divisor()) / pow10(
        frac.len(),
    )
}

/// `f` padded with '0' or truncated to exactly `t` digits.
pub open spec fn fpad(f: Seq<char>, t: nat) -> Seq<char> {
    Seq::new(t, |i: int| if i < f.len() { f[i] } else { '0' })
}

/// The values of the powers of ten that the unit divisors use.
pub proof fn lemma_pow10_table()
    ensures
        pow10(0) == 1,
        pow10(3) == 1_000,
        pow10(6) == 1_000_000,
        pow10(9) == 1_000_000_000,
        pow10(12) == 1_000_000_000_000,
        pow10(15) == 1_000_000_000_000_000,
        pow10(10) == 10_000_000_000,
        pow10(20) == 100_000_000_000_000_000_000,
        pow10(30) == 1_000_000_000_000_000_000_000_000_000_000,
        pow10(40) == 10_000_000_000_000_000_000_000_000_000_000_000_000_000,
        pow10(50) == 100_000_000_000_000_000_000_000_000_000_000_000_000_000_000_000_000,
{
    reveal_with_fuel(pow10, 51);
}

/// Multiplying numerator and denominator by the same factor keeps a quotient.
pub proof fn lemma_div_mul_cancel(a: nat, b: nat, m: nat)
    requires
        b >= 1,
        m >= 1,
    ensures
        (a * m) / (b * m) == a / b,
{
    let q = a / b;
    let r = a % b;
    lemma_fundamental_div_mod(a as int, b as int);
    assert(a * m == q * (b * m) + r * m) by (nonlinear_arith)
        requires
            a == b * q + r,
    ;
    assert(r * m < b * m && b * m >= 1) by (nonlinear_arith)
        requires
            r < b,
            m >= 1,
            b >= 1,
    ;
    lemma_fundamental_div_mod_converse((a * m) as int, (b * m) as int, q as int, (r * m) as int);
}

/// A sequence of '0' characters has value zero.
pub proof fn lemma_zeros_val(z: Seq<char>)
    requires
        forall|i: int| 0 <= i < z.len() ==> z[i] == '0',
    ensures
        digits_val(z) == 0,
    decreases z.len(),
{
    if z.len() > 0 {
        lemma_zeros_val(z.drop_last());
    }
}

/// The fractional contribution `floor(F * d / 10^k)` is unchanged when the
/// fractional digits are padded or truncated to `t` digits, provided `d`
/// divides `10^t`; over the padded digits it is a plain quotient by
/// `e = 10^t / d`.
pub proof fn lemma_frac_div(f: Seq<char>, t: nat, e: nat, d: nat)
    requires
        all_digits(f),
        e >= 1,
        d >= 1,
        pow10(t) == e * d,
    ensures
        (digits_val(f) * d) / pow10(f.len()) == digits_val(fpad(f, t)) / e,
{
    let k = f.len();
    let ff = digits_val(f);
    let f1 = digits_val(fpad(f, t));
    let q = f1 / e;
    let re = f1 % e;
    lemma_fundamental_div_mod(f1 as int, e as int);
    // f1 * d == pow10(t) * q + d * re, with d * re <= pow10(t) - d
    assert(f1 * d == (e * d) * q + d * re) by (nonlinear_arith)
        requires
            f1 == e * q + re,
    ;
    assert(d * re <= e * d - d) by (nonlinear_arith)
        requires
            re < e,
            d >= 1,
    ;
    if k <= t {
        let m = pow10((t - k) as nat);
        let zeros = Seq::new((t - k) as nat, |i: int| '0');
        assert(fpad(f, t) =~= f + zeros);
        lemma_digits_val_concat(f, zeros);
        lemma_zeros_val(zeros);
        assert(f1 == ff * m);
        lemma_pow10_adds(k, (t - k) as nat);
        assert(pow10(t) == pow10(k) * m);
        lemma_pow10_pos(k);
        lemma_pow10_pos((t - k) as nat);
        // (ff * d) / pow10(k) == (ff * d * m) / (pow10(k) * m) == (f1 * d) / pow10(t)
        lemma_div_mul_cancel(ff * d, pow10(k), m);
        assert((ff * d) * m == f1 * d) by (nonlinear_arith)
            requires
                f1 == ff * m,
        ;
        lemma_fundamental_div_mod_converse(
            (f1 * d) as int,
            pow10(t) as int,
            q as int,
            (d * re) as int,
        );
    } else {
        let m = pow10((k - t) as nat);
        let tail = f.subrange(t as int, k as int);
        assert(fpad(f, t) =~= f.subrange(0, t as int));
        assert(f =~= fpad(f, t) + tail);
        lemma_digits_val_concat(fpad(f, t), tail);
        assert(all_digits(tail));
        lemma_digits_val_bound(tail);
        let f2 = digits_val(tail);
        assert(ff == f1 * m + f2);
        assert(f2 < m);
        lemma_pow10_adds(t, (k - t) as nat);
        assert(pow10(k) == pow10(t) * m);
        lemma_pow10_pos(t);
        lemma_pow10_pos((k - t) as nat);
        // ff * d == pow10(k) * q + (d * re * m + f2 * d), remainder below pow10(k)
        assert(ff * d == (pow10(t) * m) * q + ((d * re) * m + f2 * d)) by (nonlinear_arith)
            requires
                ff == f1 * m + f2,
                f1 * d == pow10(t) * q + d * re,
        ;
        assert((d * re) * m + f2 * d < pow10(t) * m) by (nonlinear_arith)
            requires
                d * re <= pow10(t) - d,
                f2 < m,
                d >= 1,
                m >= 1,
                pow10(t) >= d,
        ;
        lemma_fundamental_div_mod_converse(
            (ff * d) as int,
            pow10(k) as int,
            q as int,
            ((d * re) * m + f2 * d) as int,
        );
    }
}

/// The byte count splits into the integer part's exact contribution and the
/// truncated fractional contribution.
pub proof fn lemma_split_int_frac(intd: Seq<char>, frac: Seq<char>, u: Unit)
    ensures
        bytes_of(intd, frac, u) == digits_val(intd) * u.spec_divisor() + (digits_val(frac)
            * u.spec_divisor()) / pow10(frac.len()),
{
    let i = digits_val(intd);
    let ff = digits_val(frac);
    let d = u.spec_divisor();
    let p = pow10(frac.len());
    lemma_pow10_pos(frac.len());
    assert((i * p + ff) * d == ff * d + (i * d) * p) by (nonlinear_arith);
    lemma_hoist_over_denominator((ff * d) as int, (i * d) as int, p);
}

/// The digits to feed the fractional long division and the co-divisor for
/// each unit: `t` digits and `e` with `e * divisor == 10^t`.
fn conv_params(unit: Unit) -> (p: (usize, u128))
    ensures
        pow10(p.0 as nat) == p.1 * unit.spec_divisor(),
        1 <= p.1 <= 88_817_841_970_012_523_233_890_533_447_265_625u128,
        p.0 <= 50,
{
    proof {
        lemma_pow10_table();
    }
    match unit {
        Unit::B => (0, 1),
        Unit::KB => (3, 1),
        Unit::MB => (6, 1),
        Unit::GB => (9, 1),
        Unit::TB => (12, 1),
        Unit::PB => (15, 1),
        Unit::KIB => (10, 9_765_625),
        Unit::MIB => (20, 95_367_431_640_625),
        Unit::GIB => (30, 931_322_574_615_478_515_625),
        Unit::TIB => (40, 9_094_947_017_729_282_379_150_390_625),
        Unit::PIB => (50, 88_817_841_970_012_523_233_890_533_447_265_625),
    }
}

/// The byte count of a magnitude in the given unit: the exact product with
/// the unit's divisor, truncated toward zero, and clamped to `u64::MAX` when
/// it exceeds the 64-bit range.
#[verifier::loop_isolation(false)]
pub fn to_bytes(m: &Magnitude, unit: Unit) -> (b: u64)
    requires
        m.wf(),
    ensures
        b == sat64(bytes_of(m.int_digits@, m.frac_digits@, unit)),
{
    let d: u64 = unit.divisor();
    let (t, e) = conv_params(unit);
    let ghost intd = m.int_digits@;
    let ghost frac = m.frac_digits@;

    // Integer part, saturating once it exceeds the 64-bit range.
    let mut ival: u128 = 0;
    let mut sat: bool = false;
    let mut idx: usize = 0;
    while idx < m.int_digits.len()
        invariant
            0 <= idx <= intd.len(),
            !sat ==> ival == digits_val(intd.subrange(0, idx as int)) && ival <= u64::MAX,
            sat ==> digits_val(intd.subrange(0, idx as int)) > u64::MAX,
        decreases intd.len() - idx,
    {
        let c = m.int_digits[idx];
        assert(is_digit_char(c));
        let dv: u128 = (c as u32 - 48) as u128;
        proof {
            assert(intd.subrange(0, idx + 1).drop_last() =~= intd.subrange(0, idx as int));
            assert(intd.subrange(0, idx + 1).last() == c);
            assert(dv == digit_val(c));
        }
        if !sat {
            ival = ival * 10 + dv;
            if ival > u64::MAX as u128 {
                sat = true;
            }
        } else {
            proof {
                let old_val = digits_val(intd.subrange(0, idx as int));
                assert(digits_val(intd.subrange(0, idx + 1)) == old_val * 10 + digit_val(c));
                assert(old_val * 10 >= old_val);
            }
        }
        idx += 1;
    }
    proof {
        assert(intd.subrange(0, intd.len() as int) =~= intd);
        lemma_split_int_frac(intd, frac, unit);
    }
    if sat {
        proof {
            let i = digits_val(intd);
            assert(i * unit.spec_divisor() >= i * 1) by (nonlinear_arith)
                requires
                    unit.spec_divisor() >= 1,
                    i >= 0,
            ;
        }
        return u64::MAX;
    }

    // Fractional part: long division of the first t fractional digits
    // (zero-padded) by e, which yields floor(F * d / 10^k) exactly.
    let ghost fp = fpad(frac, t as nat);
    let mut q: u128 = 0;
    let mut r: u128 = 0;
    let mut pos: usize = 0;
    while pos < t
        invariant
            0 <= pos <= t,
            r < e,
            q * e + r == digits_val(fp.subrange(0, pos as int)),
            digits_val(fp.subrange(0, pos as int)) < pow10(pos as nat),
        decreases t - pos,
    {
        let dv: u128 = if pos < m.frac_digits.len() {
            let c = m.frac_digits[pos];
            assert(is_digit_char(c));
            (c as u32 - 48) as u128
        } else {
            0
        };
        proof {
            assert(fp.subrange(0, pos + 1).drop_last() =~= fp.subrange(0, pos as int));
            assert(dv == digit_val(fp[pos as int]));
            assert(fp.subrange(0, pos + 1).last() == fp[pos as int]);
            // q stays below the divisor, so no overflow
            lemma_pow10_adds(pos as nat, (t - pos) as nat);
            lemma_pow10_pos((t - pos) as nat);
            assert(pow10(pos as nat) <= pow10(pos as nat) * pow10((t - pos) as nat))
                by (nonlinear_arith)
                requires
                    pow10((t - pos) as nat) >= 1,
                    pow10(pos as nat) >= 1,
            ;
            assert(q * e < pow10(t as nat)) by (nonlinear_arith)
                requires
                    q * e + r == digits_val(fp.subrange(0, pos as int)),
                    digits_val(fp.subrange(0, pos as int)) < pow10(pos as nat),
                    pow10(pos as nat) <= pow10(t as nat),
                    r >= 0,
            ;
            assert(q < unit.spec_divisor()) by (nonlinear_arith)
                requires
                    q * e < e * unit.spec_divisor(),
                    e >= 1,
                    q >= 0,
            ;
        }
        let ghost old_q = q;
        let ghost old_r = r;
        let ghost prev = digits_val(fp.subrange(0, pos as int));
        let acc: u128 = r * 10 + dv;
        let qd: u128 = acc / e;
        r = acc % e;
        q = q * 10 + qd;
        proof {
            lemma_fundamental_div_mod(acc as int, e as int);
            assert(acc == e * qd + r);
            assert(digits_val(fp.subrange(0, pos + 1)) == prev * 10 + digit_val(fp[pos as int]));
            assert(q * e + r == prev * 10 + dv) by (nonlinear_arith)
                requires
                    q == old_q * 10 + qd,
                    acc == e * qd + r,
                    acc == old_r * 10 + dv,
                    old_q * e + old_r == prev,
            ;
            assert(prev * 10 + dv < pow10((pos + 1) as nat)) by {
                assert(pow10((pos + 1) as nat) == 10 * pow10(pos as nat));
                assert(dv <= 9);
            }
        }
        pos += 1;
    }
    proof {
        assert(fp.subrange(0, t as int) =~= fp);
        lemma_fundamental_div_mod_converse(
            digits_val(fp) as int,
            e as int,
            q as int,
            r as int,
        );
        lemma_frac_div(frac, t as nat, e as nat, unit.spec_divisor());
    }
    // Total, clamped to the 64-bit range.
    proof {
        assert(all_digits(fp));
        lemma_digits_val_bound(fp);
        assert(q < unit.spec_divisor()) by (nonlinear_arith)
            requires
                q * e + r == digits_val(fp),
                digits_val(fp) < pow10(t as nat),
                pow10(t as nat) == e * unit.spec_divisor(),
                e >= 1,
                r >= 0,
                q >= 0,
        ;
        assert(unit.spec_divisor() <= 1_125_899_906_842_624);
        assert(ival * (d as u128) <= 0xffff_ffff_ffff_ffffu128 * 1_125_899_906_842_624u128)
            by (nonlinear_arith)
            requires
                ival <= 0xffff_ffff_ffff_ffffu128,
                d as u128 <= 1_125_899_906_842_624u128,
        ;
    }
    let total: u128 = ival * (d as u128) + q;
    if total > u64::MAX as u128 {
        u64::MAX
    } else {
        total as u64
    }
}

} // verus!
