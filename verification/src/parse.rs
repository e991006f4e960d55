//! The size parser: a byte-size string is digits, an optional fraction
//! ('.' and at least one digit), and an optional unit token — spaces, then a
//! unit symbol matched case-insensitively against the eleven legal spellings —
//! anchored to the whole input. Spaces are tolerated only in front of a
//! present symbol. A missing symbol means unit B.

use crate::convert::{bytes_of, to_bytes};
use crate::digits::{all_digits, is_digit_char, sat64};
use crate::magnitude::Magnitude;
use crate::unit::Unit;
use vstd::prelude::*;
use vstd::string::StrSliceExecFns;

verus! {

/// The first index at or after `i` that does not hold a digit.
pub open spec fn digit_run_end(s: Seq<char>, i: int) -> int
    decreases s.len() - i when 0 <= i <= s.len()
{
    if i >= s.len() {
        i
    } else if is_digit_char(s[i]) {
        digit_run_end(s, i + 1)
    } else {
        i
    }
}

/// The first index at or after `i` that does not hold a space.
pub open spec fn space_run_end(s: Seq<char>, i: int) -> int
    decreases s.len() - i when 0 <= i <= s.len()
{
    if i >= s.len() {
        i
    } else if s[i] == ' ' {
        space_run_end(s, i + 1)
    } else {
        i
    }
}

pub proof fn lemma_digit_run_end(s: Seq<char>, i: int)
    requires
        0 <= i <= s.len(),
    ensures
        i <= digit_run_end(s, i) <= s.len(),
        forall|j: int| i <= j < digit_run_end(s, i) ==> is_digit_char(#[trigger] s[j]),
        digit_run_end(s, i) < s.len() ==> !is_digit_char(s[digit_run_end(s, i)]),
    decreases s.len() - i,
{
    if i < s.len() && is_digit_char(s[i]) {
        lemma_digit_run_end(s, i + 1);
    }
}

/// The run end is pinned by its characterization: digits up to `j`, and `j`
/// is the end of the string or holds no digit.
pub proof fn lemma_digit_run_end_is(s: Seq<char>, i: int, j: int)
    requires
        0 <= i <= j <= s.len(),
        forall|x: int| i <= x < j ==> is_digit_char(#[trigger] s[x]),
        j < s.len() ==> !is_digit_char(s[j]),
    ensures
        digit_run_end(s, i) == j,
    decreases j - i,
{
    if i < j {
        lemma_digit_run_end_is(s, i + 1, j);
    }
}

pub proof fn lemma_space_run_end(s: Seq<char>, i: int)
    requires
        0 <= i <= s.len(),
    ensures
        i <= space_run_end(s, i) <= s.len(),
        forall|j: int| i <= j < space_run_end(s, i) ==> #[trigger] s[j] == ' ',
        space_run_end(s, i) < s.len() ==> s[space_run_end(s, i)] != ' ',
    decreases s.len() - i,
{
    if i < s.len() && s[i] == ' ' {
        lemma_space_run_end(s, i + 1);
    }
}

pub proof fn lemma_space_run_end_is(s: Seq<char>, i: int, j: int)
    requires
        0 <= i <= j <= s.len(),
        forall|x: int| i <= x < j ==> #[trigger] s[x] == ' ',
        j < s.len() ==> s[j] != ' ',
    ensures
        space_run_end(s, i) == j,
    decreases j - i,
{
    if i < j {
        lemma_space_run_end_is(s, i + 1, j);
    }
}

/// Whether `c` spells the final 'b' of a unit symbol (either case).
pub open spec fn is_b_char(c: char) -> bool {
    c == 'b' || c == 'B'
}

/// Whether `c` spells the 'i' of a binary unit symbol (either case).
pub open spec fn is_i_char(c: char) -> bool {
    c == 'i' || c == 'I'
}

/// The decimal unit selected by a prefix letter (either case).
pub open spec fn decimal_prefix(c: char) -> Option<Unit> {
    if c == 'k' || c == 'K' {
        Some(Unit::KB)
    } else if c == 'm' || c == 'M' {
        Some(Unit::MB)
    } else if c == 'g' || c == 'G' {
        Some(Unit::GB)
    } else if c == 't' || c == 'T' {
        Some(Unit::TB)
    } else if c == 'p' || c == 'P' {
        Some(Unit::PB)
    } else {
        None
    }
}

/// The binary unit selected by a prefix letter (either case).
pub open spec fn binary_prefix(c: char) -> Option<Unit> {
    if c == 'k' || c == 'K' {
        Some(Unit::KIB)
    } else if c == 'm' || c == 'M' {
        Some(Unit::MIB)
    } else if c == 'g' || c == 'G' {
        Some(Unit::GIB)
    } else if c == 't' || c == 'T' {
        Some(Unit::TIB)
    } else if c == 'p' || c == 'P' {
        Some(Unit::PIB)
    } else {
        None
    }
}

/// The unit spelled by a symbol, case-insensitively: an empty symbol means B;
/// otherwise exactly "b", a decimal prefix and 'b', or a binary prefix, 'i'
/// and 'b'. Anything else is no unit.
pub open spec fn unit_of_symbol(sym: Seq<char>) -> Option<Unit> {
    if sym.len() == 0 {
        Some(Unit::B)
    } else if sym.len() == 1 {
        if is_b_char(sym[0]) {
            Some(Unit::B)
        } else {
            None
        }
    } else if sym.len() == 2 {
        if decimal_prefix(sym[0]) is Some && is_b_char(sym[1]) {
            decimal_prefix(sym[0])
        } else {
            None
        }
    } else if sym.len() == 3 {
        if binary_prefix(sym[0]) is Some && is_i_char(sym[1]) && is_b_char(sym[2]) {
            binary_prefix(sym[0])
        } else {
            None
        }
    } else {
        None
    }
}

/// The tail of the grammar after the number: spaces, then the unit symbol,
/// anchored to the end of the input. The space run belongs to the unit token:
/// spaces followed by no symbol at all are rejected.
pub open spec fn spec_parse_tail(s: Seq<char>, intd: Seq<char>, frac: Seq<char>, j: int) -> Option<
    (Seq<char>, Seq<char>, Unit),
> {
    let k = space_run_end(s, j);
    if k > j && k == s.len() {
        None
    } else {
        match unit_of_symbol(s.subrange(k, s.len() as int)) {
            Some(u) => Some((intd, frac, u)),
            None => None,
        }
    }
}

/// The whole grammar: the integer digits, the optional fractional digits and
/// the unit of `s`, or nothing when `s` does not match.
pub open spec fn spec_parse_size(s: Seq<char>) -> Option<(Seq<char>, Seq<char>, Unit)> {
    let e1 = digit_run_end(s, 0);
    if e1 == 0 {
        None
    } else if e1 < s.len() && s[e1] == '.' {
        let e2 = digit_run_end(s, e1 + 1);
        if e2 == e1 + 1 {
            None
        } else {
            spec_parse_tail(s, s.subrange(0, e1), s.subrange(e1 + 1, e2), e2)
        }
    } else {
        spec_parse_tail(s, s.subrange(0, e1), Seq::empty(), e1)
    }
}

/// The byte count that `s` parses to: the represented magnitude times the
/// unit's divisor, truncated toward zero and clamped to the 64-bit range.
pub open spec fn spec_parse(s: Seq<char>) -> Option<u64> {
    match spec_parse_size(s) {
        Some(t) => Some(sat64(bytes_of(t.0, t.1, t.2))),
        None => None,
    }
}

/// The one parse error message.
pub open spec fn invalid_msg() -> Seq<char> {
    "Parse Error. Invalid byte format."@
}

fn is_digit_exec(c: char) -> (b: bool)
    ensures
        b == is_digit_char(c),
{
    let v = c as u32;
    48 <= v && v <= 57
}

#[verifier::loop_isolation(false)]
fn scan_digit_end(s: &str, from: usize, n: usize) -> (e: usize)
    requires
        n == s@.len(),
        from <= n,
    ensures
        e == digit_run_end(s@, from as int),
        from <= e <= n,
{
    let mut i = from;
    while i < n && is_digit_exec(s.get_char(i))
        invariant
            from <= i <= n,
            digit_run_end(s@, i as int) == digit_run_end(s@, from as int),
        decreases n - i,
    {
        i += 1;
    }
    i
}

#[verifier::loop_isolation(false)]
fn scan_space_end(s: &str, from: usize, n: usize) -> (e: usize)
    requires
        n == s@.len(),
        from <= n,
    ensures
        e == space_run_end(s@, from as int),
        from <= e <= n,
{
    let mut i = from;
    while i < n && s.get_char(i) == ' '
        invariant
            from <= i <= n,
            space_run_end(s@, i as int) == space_run_end(s@, from as int),
        decreases n - i,
    {
        i += 1;
    }
    i
}

#[verifier::loop_isolation(false)]
fn collect_chars(s: &str, from: usize, to: usize) -> (v: Vec<char>)
    requires
        from <= to <= s@.len(),
    ensures
        v@ == s@.subrange(from as int, to as int),
{
    let mut v: Vec<char> = Vec::new();
    let mut i = from;
    while i < to
        invariant
            from <= i <= to,
            v@ == s@.subrange(from as int, i as int),
        decreases to - i,
    {
        let c = s.get_char(i);
        v.push(c);
        proof {
            assert(s@.subrange(from as int, i + 1) =~= s@.subrange(from as int, i as int).push(c));
        }
        i += 1;
    }
    v
}

fn decimal_prefix_exec(c: char) -> (u: Option<Unit>)
    ensures
        u == decimal_prefix(c),
{
    if c == 'k' || c == 'K' {
        Some(Unit::KB)
    } else if c == 'm' || c == 'M' {
        Some(Unit::MB)
    } else if c == 'g' || c == 'G' {
        Some(Unit::GB)
    } else if c == 't' || c == 'T' {
        Some(Unit::TB)
    } else if c == 'p' || c == 'P' {
        Some(Unit::PB)
    } else {
        None
    }
}

fn binary_prefix_exec(c: char) -> (u: Option<Unit>)
    ensures
        u == binary_prefix(c),
{
    if c == 'k' || c == 'K' {
        Some(Unit::KIB)
    } else if c == 'm' || c == 'M' {
        Some(Unit::MIB)
    } else if c == 'g' || c == 'G' {
        Some(Unit::GIB)
    } else if c == 't' || c == 'T' {
        Some(Unit::TIB)
    } else if c == 'p' || c == 'P' {
        Some(Unit::PIB)
    } else {
        None
    }
}

fn match_unit(s: &str, k: usize, n: usize) -> (u: Option<Unit>)
    requires
        n == s@.len(),
        k <= n,
    ensures
        u == unit_of_symbol(s@.subrange(k as int, n as int)),
{
    let ghost sym = s@.subrange(k as int, n as int);
    let rem = n - k;
    if rem == 0 {
        Some(Unit::B)
    } else if rem == 1 {
        let c0 = s.get_char(k);
        assert(c0 == sym[0]);
        if c0 == 'b' || c0 == 'B' {
            Some(Unit::B)
        } else {
            None
        }
    } else if rem == 2 {
        let c0 = s.get_char(k);
        let c1 = s.get_char(k + 1);
        assert(c0 == sym[0] && c1 == sym[1]);
        match decimal_prefix_exec(c0) {
            Some(u) => if c1 == 'b' || c1 == 'B' {
                Some(u)
            } else {
                None
            },
            None => None,
        }
    } else if rem == 3 {
        let c0 = s.get_char(k);
        let c1 = s.get_char(k + 1);
        let c2 = s.get_char(k + 2);
        assert(c0 == sym[0] && c1 == sym[1] && c2 == sym[2]);
        match binary_prefix_exec(c0) {
            Some(u) => if (c1 == 'i' || c1 == 'I') && (c2 == 'b' || c2 == 'B') {
                Some(u)
            } else {
                None
            },
            None => None,
        }
    } else {
        None
    }
}

/// Parse a byte-size string into its exact magnitude and its unit.
///
/// Succeeds exactly on the inputs that match the grammar, returning the digit
/// parts and the unit that `spec_parse_size` names; everything else is
/// rejected with the one parse error message.
pub fn parse_size_unit(s: &str) -> (r: Result<(Magnitude, Unit), &'static str>)
    ensures
        spec_parse_size(s@) matches Some(t) ==> (r matches Ok(q) && q.0.wf() && q.0.int_digits@
            == t.0 && q.0.frac_digits@ == t.1 && q.1 == t.2),
        spec_parse_size(s@) is None ==> (r matches Err(e) && e@ == invalid_msg()),
{
    let n = s.unicode_len();
    let e1 = scan_digit_end(s, 0, n);
    proof {
        lemma_digit_run_end(s@, 0);
    }
    if e1 == 0 {
        return Err("Parse Error. Invalid byte format.");
    }
    let mut frac: Vec<char> = Vec::new();
    let mut j = e1;
    if e1 < n && s.get_char(e1) == '.' {
        let e2 = scan_digit_end(s, e1 + 1, n);
        proof {
            lemma_digit_run_end(s@, e1 + 1);
        }
        if e2 == e1 + 1 {
            return Err("Parse Error. Invalid byte format.");
        }
        frac = collect_chars(s, e1 + 1, e2);
        j = e2;
    }
    let k = scan_space_end(s, j, n);
    if k > j && k == n {
        return Err("Parse Error. Invalid byte format.");
    }
    match match_unit(s, k, n) {
        Some(u) => {
            let int_digits = collect_chars(s, 0, e1);
            let m = Magnitude { int_digits, frac_digits: frac };
            proof {
                assert(all_digits(m.int_digits@));
                assert(all_digits(m.frac_digits@));
            }
            Ok((m, u))
        },
        None => Err("Parse Error. Invalid byte format."),
    }
}

/// Parse a byte-size string into its exact byte count.
///
/// Succeeds exactly on the inputs the grammar accepts; the result is the
/// magnitude times the unit's divisor, truncated toward zero and clamped to
/// `u64::MAX`.
pub fn parse(s: &str) -> (r: Result<u64, &'static str>)
    ensures
        spec_parse(s@) matches Some(b) ==> (r matches Ok(rb) && rb == b),
        spec_parse(s@) is None ==> (r matches Err(e) && e@ == invalid_msg()),
{
    match parse_size_unit(s) {
        Ok((m, u)) => Ok(to_bytes(&m, u)),
        Err(e) => Err(e),
    }
}

} // verus!
