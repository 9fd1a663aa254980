//! Compact decimal formatting.
//!
//! Finite values render in plain decimal notation with insignificant
//! trailing zeros stripped; values whose magnitude would need several
//! leading zeros after the decimal point switch to a compact `N\D`
//! notation, meaning `D` preceded by `N - 1` zeros after the point.  A
//! not-a-number or infinite value renders as a single placeholder dash.

use vstd::prelude::*;
use crate::decimal::{
    Dec, COEF_MAX, iabs, n_digits, pow10,
    lemma_n_digits_at_most, lemma_n_digits_bounds, lemma_pow10_vals,
    digits_u128,
};

verus! {

/// The character for one decimal digit.
pub open spec fn digit_char(d: nat) -> char {
    if d == 0 { '0' } else if d == 1 { '1' } else if d == 2 { '2' } else if d == 3 { '3' }
    else if d == 4 { '4' } else if d == 5 { '5' } else if d == 6 { '6' } else if d == 7 { '7' }
    else if d == 8 { '8' } else { '9' }
}

/// The decimal digits of `n`, most significant first.
pub open spec fn dec_digits(n: nat) -> Seq<char>
    decreases n,
{
    if n < 10 { seq![digit_char(n)] } else { dec_digits(n / 10).push(digit_char(n % 10)) }
}

/// `k` zero characters.
pub open spec fn zero_chars(k: nat) -> Seq<char> {
    Seq::new(k, |i: int| '0')
}

/// `n` with its trailing zero digits removed (zero stays zero).
pub open spec fn strip0(n: nat) -> nat
    decreases n,
{
    if n == 0 { 0 } else if n % 10 == 0 { strip0(n / 10) } else { n }
}

/// How many trailing zero digits `n` carries.
pub open spec fn strip0_count(n: nat) -> nat
    decreases n,
{
    if n == 0 { 0 } else if n % 10 == 0 { 1 + strip0_count(n / 10) } else { 0 }
}

/// Plain decimal rendering of the nonzero magnitude `u * 10^e` (no sign):
/// trailing digits beyond the decimal point as needed, a leading zero
/// before a bare fraction, and zeros after the point for small values.
pub open spec fn plain_chars(u: nat, e: int) -> Seq<char>
    recommends u > 0,
{
    let di = n_digits(u) as int;
    if e >= 0 {
        dec_digits(u) + zero_chars(e as nat)
    } else if e + di > 0 {
        dec_digits(u).take(e + di) + seq!['.'] + dec_digits(u).skip(e + di)
    } else {
        seq!['0', '.'] + zero_chars((-(e + di)) as nat) + dec_digits(u)
    }
}

/// What `fmt_dec` produces: the placeholder dash for a not-a-number or an
/// infinity; otherwise the stripped coefficient rendered plainly, or in
/// the `N\D` leading-zero-count notation once the first significant digit
/// would sit more than one place behind the decimal point.
pub open spec fn spec_fmt_dec(d: Dec) -> Seq<char> {
    match d {
        Dec::Nan => seq!['-'],
        Dec::Inf { .. } => seq!['-'],
        Dec::Fin { m, e } => {
            if m == 0 {
                seq!['0']
            } else {
                let sign: Seq<char> = if m < 0 { seq!['-'] } else { Seq::empty() };
                let u0 = iabs(m as int) as nat;
                let u = strip0(u0);
                let e2 = e + strip0_count(u0);
                let di = n_digits(u) as int;
                if e2 + di < 0 {
                    sign + dec_digits((- di - e2 + 1) as nat) + seq!['\\'] + dec_digits(u)
                } else {
                    sign + plain_chars(u, e2)
                }
            }
        },
    }
}

/// Fits a rendering into exactly six characters: truncated on the right,
/// then right-justified with spaces.
pub open spec fn fit6(s: Seq<char>) -> Seq<char> {
    let t = if s.len() > 6 { s.take(6) } else { s };
    Seq::new((6 - t.len()) as nat, |i: int| ' ') + t
}

/// Relies on `String`'s `FromIterator` implementation: collecting an
/// iterator over the characters of a vector yields exactly that string.
#[verifier::external_body]
pub(crate) fn chars_to_string(v: &Vec<char>) -> (r: String)
    ensures r@ == v@,
{
    v.iter().collect()
}

/// The character for a digit below ten.
fn digit_of(d: u64) -> (r: char)
    requires d < 10,
    ensures r == digit_char(d as nat),
{
    match d {
        0 => '0', 1 => '1', 2 => '2', 3 => '3', 4 => '4',
        5 => '5', 6 => '6', 7 => '7', 8 => '8', _ => '9',
    }
}

/// Appends the decimal digits of `n`, most significant first.
fn push_digits(n: u64, out: &mut Vec<char>)
    ensures final(out)@ == old(out)@ + dec_digits(n as nat),
    decreases n,
{
    if n < 10 {
        let c = digit_of(n);
        out.push(c);
        proof {
            assert(out@ =~= old(out)@ + dec_digits(n as nat));
        }
    } else {
        push_digits(n / 10, out);
        let c = digit_of(n % 10);
        out.push(c);
        proof {
            assert(out@ =~= old(out)@ + dec_digits(n as nat));
        }
    }
}

/// Appends `k` zero characters.
fn push_zeros(k: u32, out: &mut Vec<char>)
    ensures final(out)@ == old(out)@ + zero_chars(k as nat),
{
    let mut i: u32 = 0;
    while i < k
        invariant
            i <= k,
            out@ == old(out)@ + zero_chars(i as nat),
        decreases k - i,
    {
        out.push('0');
        i = i + 1;
        proof {
            assert(out@ =~= old(out)@ + zero_chars(i as nat));
        }
    }
}

/// Strips trailing zero digits, returning the stripped value and count.
pub(crate) fn strip_zeros(n: u64) -> (r: (u64, u32))
    ensures
        r.0 as nat == strip0(n as nat),
        r.1 as nat == strip0_count(n as nat),
        r.0 <= n,
        r.1 <= 39,
{
    proof {
        if n >= 1 {
            crate::decimal::lemma_n_digits_u128(n as u128);
        }
    }
    let mut u: u64 = n;
    let mut k: u32 = 0;
    while u != 0 && u % 10 == 0
        invariant
            strip0(n as nat) == strip0(u as nat),
            strip0_count(n as nat) == k + strip0_count(u as nat),
            u <= n,
            u != 0 ==> k + n_digits(u as nat) == n_digits(n as nat),
            n != 0 ==> n_digits(n as nat) <= 39,
            u == 0 ==> k == 0,
        decreases u,
    {
        u = u / 10;
        k = k + 1;
    }
    (u, k)
}

/// Appends the plain decimal rendering of the magnitude `u * 10^e`.
pub(crate) fn push_plain(u: u64, e: i32, out: &mut Vec<char>)
    requires 1 <= u <= COEF_MAX as u64, -450 <= e <= 450,
    ensures final(out)@ == old(out)@ + plain_chars(u as nat, e as int),
{
    proof {
        lemma_pow10_vals();
        lemma_n_digits_at_most(u as nat, 16);
        lemma_n_digits_bounds(u as nat);
        lemma_dec_digits_len(u as nat);
    }
    let di: u32 = digits_u128(u as u128);
    if e >= 0 {
        push_digits(u, out);
        push_zeros(e as u32, out);
        proof {
            assert(out@ =~= old(out)@ + plain_chars(u as nat, e as int));
        }
    } else if e + di as i32 > 0 {
        let split: u32 = (e + di as i32) as u32;
        let mut buf: Vec<char> = Vec::new();
        push_digits(u, &mut buf);
        let mut i: usize = 0;
        while i < buf.len()
            invariant
                buf@ == dec_digits(u as nat),
                i <= buf.len(),
                split < buf.len(),
                out@ == old(out)@
                    + (if i <= split as int { buf@.take(i as int) }
                       else { buf@.take(split as int) + seq!['.'] + buf@.subrange(split as int, i as int) }),
            decreases buf.len() - i,
        {
            if i == split as usize {
                out.push('.');
                proof {
                    assert(out@ =~= old(out)@ + (buf@.take(split as int) + seq!['.']
                        + buf@.subrange(split as int, i as int)));
                }
            }
            let c = buf[i];
            out.push(c);
            i = i + 1;
            proof {
                if i <= split as int {
                    assert(out@ =~= old(out)@ + buf@.take(i as int));
                } else {
                    assert(out@ =~= old(out)@ + (buf@.take(split as int) + seq!['.']
                        + buf@.subrange(split as int, i as int)));
                }
            }
        }
        proof {
            assert(buf@.take(split as int) + seq!['.'] + buf@.subrange(split as int, buf@.len() as int)
                =~= dec_digits(u as nat).take(split as int) + seq!['.'] + dec_digits(u as nat).skip(split as int));
            assert(out@ =~= old(out)@ + plain_chars(u as nat, e as int));
        }
    } else {
        out.push('0');
        out.push('.');
        push_zeros((-(e + di as i32)) as u32, out);
        push_digits(u, out);
        proof {
            assert(out@ =~= old(out)@ + plain_chars(u as nat, e as int));
        }
    }
}

/// The digit rendering of `n` has one character per digit.
pub proof fn lemma_dec_digits_len(n: nat)
    ensures dec_digits(n).len() == n_digits(n),
    decreases n,
{
    if n >= 10 {
        lemma_dec_digits_len(n / 10);
    }
}

/// Nicely formats a decimal: the placeholder dash for a not-a-number or
/// infinite value, plain or compact `N\D` notation otherwise.
pub fn fmt_dec(d: Dec) -> (r: String)
    requires d.wf(),
    ensures r@ == spec_fmt_dec(d),
{
    let mut out: Vec<char> = Vec::new();
    match d {
        Dec::Nan => {
            out.push('-');
            proof {
                assert(out@ =~= spec_fmt_dec(d));
            }
        },
        Dec::Inf { .. } => {
            out.push('-');
            proof {
                assert(out@ =~= spec_fmt_dec(d));
            }
        },
        Dec::Fin { m, e } => {
            if m == 0 {
                out.push('0');
                proof {
                    assert(out@ =~= spec_fmt_dec(d));
                }
            } else {
                if m < 0 {
                    out.push('-');
                }
                let u0: u64 = if m < 0 { (-m) as u64 } else { m as u64 };
                let (u, k) = strip_zeros(u0);
                proof {
                    lemma_pow10_vals();
                    lemma_strip0_nonzero(u0 as nat);
                    lemma_strip0_le(u0 as nat);
                    lemma_n_digits_at_most(u as nat, 16);
                    lemma_n_digits_bounds(u as nat);
                }
                let e2: i32 = e + k as i32;
                let di: u32 = digits_u128(u as u128);
                if e2 + (di as i32) < 0 {
                    let n_label: u64 = ((-(e2 + di as i32)) + 1) as u64;
                    push_digits(n_label, &mut out);
                    out.push('\\');
                    push_digits(u, &mut out);
                    proof {
                        assert(out@ =~= spec_fmt_dec(d));
                    }
                } else {
                    push_plain(u, e2, &mut out);
                    proof {
                        assert(out@ =~= spec_fmt_dec(d));
                    }
                }
            }
        },
    }
    chars_to_string(&out)
}

/// A decimal digit character.
pub open spec fn is_digit_char(c: char) -> bool {
    c == '0' || c == '1' || c == '2' || c == '3' || c == '4'
        || c == '5' || c == '6' || c == '7' || c == '8' || c == '9'
}

/// The numeric value of a digit character (zero for anything else).
pub open spec fn char_digit(c: char) -> nat {
    if c == '1' { 1 } else if c == '2' { 2 } else if c == '3' { 3 }
    else if c == '4' { 4 } else if c == '5' { 5 } else if c == '6' { 6 }
    else if c == '7' { 7 } else if c == '8' { 8 } else if c == '9' { 9 } else { 0 }
}

/// Scans the unsigned part of a decimal literal, character by character:
/// digits accumulate into the coefficient, one dot may separate the
/// integer digits from the fraction, and anything else rejects.  The
/// coefficient keeps the first sixteen significant digits; further
/// digits are cut away, truncating toward zero, and only move the
/// exponent (up for an integer digit, not at all for a fraction digit).
/// Acceptance needs at least one integer digit, after a dot at least one
/// fraction digit, and an exponent within the representable range.  The
/// result is the coefficient and the exponent.
pub open spec fn scan_dec(t: Seq<char>, acc: nat, dot: bool, got_int: bool, got_frac: bool, e_adj: int) -> Option<(nat, int)>
    decreases t.len(),
{
    if t.len() == 0 {
        if got_int && (!dot || got_frac) && -400 <= e_adj <= 400 {
            Some((acc, e_adj))
        } else {
            None
        }
    } else if t[0] == '.' {
        if dot || !got_int {
            None
        } else {
            scan_dec(t.skip(1), acc, true, got_int, got_frac, e_adj)
        }
    } else if is_digit_char(t[0]) {
        if acc * 10 + char_digit(t[0]) > COEF_MAX as nat {
            if dot {
                scan_dec(t.skip(1), acc, dot, got_int, true, e_adj)
            } else {
                scan_dec(t.skip(1), acc, dot, true, got_frac, e_adj + 1)
            }
        } else if dot {
            scan_dec(t.skip(1), acc * 10 + char_digit(t[0]), dot, got_int, true, e_adj - 1)
        } else {
            scan_dec(t.skip(1), acc * 10 + char_digit(t[0]), dot, true, got_frac, e_adj)
        }
    } else {
        None
    }
}

/// What `parse_dec` accepts and produces: an optional leading minus, then
/// integer digits with an optional dot-separated fraction; the value is
/// the signed coefficient at the scanned exponent, the first sixteen
/// significant digits kept and the rest truncated away.
pub open spec fn spec_parse_dec(s: Seq<char>) -> Option<Dec> {
    let neg = s.len() > 0 && s[0] == '-';
    let t = if neg { s.skip(1) } else { s };
    match scan_dec(t, 0, false, false, false, 0) {
        Some((coef, e_adj)) => Some(Dec::Fin {
            m: if neg { (-(coef as int)) as i64 } else { coef as i64 },
            e: e_adj as i32,
        }),
        None => None,
    }
}

/// The numeric value of a digit character, executable side.
pub(crate) fn digit_val_of(c: char) -> (r: Option<u64>)
    ensures
        r is Some <==> is_digit_char(c),
        r is Some ==> r->0 as nat == char_digit(c) && r->0 < 10,
{
    match c {
        '0' => Some(0), '1' => Some(1), '2' => Some(2), '3' => Some(3), '4' => Some(4),
        '5' => Some(5), '6' => Some(6), '7' => Some(7), '8' => Some(8), '9' => Some(9),
        _ => None,
    }
}

/// Parses a decimal literal, such as a price string from the feed.
///
/// Accepts an optional minus, integer digits, and an optional fraction
/// after a single dot; rejects anything else or an exponent beyond the
/// representable range.  Digits beyond the sixteen the coefficient can
/// carry are truncated away toward zero.
pub fn parse_dec(s: &str) -> (r: Option<Dec>)
    ensures
        r == spec_parse_dec(s@),
        r is Some ==> r->0.wf() && r->0 is Fin,
{
    let n = s.unicode_len();
    let start: usize = if n > 0 && s.get_char(0) == '-' { 1 } else { 0 };
    let ghost t: Seq<char> = if start == 1 { s@.skip(1) } else { s@ };
    let mut i: usize = start;
    let mut coef: u64 = 0;
    let mut dot: bool = false;
    let mut got_int: bool = false;
    let mut got_frac: bool = false;
    let mut e_adj: i128 = 0;
    proof {
        assert(t.skip(0) =~= t);
        assert(t =~= s@.skip(start as int));
    }
    while i < n
        invariant
            start == 0 || start == 1,
            start <= i <= n,
            n == s@.len(),
            start == 1 ==> s@.len() > 0 && s@[0] == '-',
            start == 0 ==> !(s@.len() > 0 && s@[0] == '-'),
            t == (if start == 1 { s@.skip(1) } else { s@ }),
            scan_dec(t, 0, false, false, false, 0)
                == scan_dec(s@.skip(i as int), coef as nat, dot, got_int, got_frac, e_adj as int),
            coef <= COEF_MAX as u64,
            -(i as int) <= e_adj <= i as int,
        decreases n - i,
    {
        proof {
            assert(s@.skip(i as int)[0] == s@[i as int]);
            assert(s@.skip(i as int).skip(1) =~= s@.skip(i as int + 1));
        }
        let c = s.get_char(i);
        if c == '.' {
            if dot || !got_int {
                proof {
                    assert(scan_dec(s@.skip(i as int), coef as nat, dot, got_int, got_frac, e_adj as int) is None);
                    assert(spec_parse_dec(s@) is None);
                }
                return None;
            }
            dot = true;
        } else {
            match digit_val_of(c) {
                Some(d) => {
                    if coef > 999_999_999_999_999 {
                        // a seventeenth significant digit is truncated away
                        proof {
                            assert((coef as nat) * 10 + char_digit(c) > COEF_MAX as nat);
                        }
                        if dot {
                            got_frac = true;
                        } else {
                            got_int = true;
                            e_adj = e_adj + 1;
                        }
                    } else {
                        coef = coef * 10 + d;
                        if dot {
                            got_frac = true;
                            e_adj = e_adj - 1;
                        } else {
                            got_int = true;
                        }
                    }
                },
                None => {
                    proof {
                        assert(!is_digit_char(c) && c != '.');
                        assert(scan_dec(s@.skip(i as int), coef as nat, dot, got_int, got_frac, e_adj as int) is None);
                        assert(spec_parse_dec(s@) is None);
                    }
                    return None;
                },
            }
        }
        i = i + 1;
    }
    proof {
        assert(s@.skip(n as int).len() == 0);
    }
    if got_int && (!dot || got_frac) && -400 <= e_adj && e_adj <= 400 {
        let m: i64 = if start == 1 { -(coef as i64) } else { coef as i64 };
        Some(Dec::Fin { m, e: e_adj as i32 })
    } else {
        None
    }
}

/// Stripping zeros from a nonzero number leaves a nonzero number.
pub(crate) proof fn lemma_strip0_nonzero(n: nat)
    ensures n != 0 ==> strip0(n) != 0 && strip0(n) % 10 != 0,
    decreases n,
{
    if n != 0 && n % 10 == 0 {
        lemma_strip0_nonzero(n / 10);
    }
}

/// Stripping zeros does not increase the number.
pub(crate) proof fn lemma_strip0_le(n: nat)
    ensures strip0(n) <= n,
    decreases n,
{
    if n != 0 && n % 10 == 0 {
        lemma_strip0_le(n / 10);
    }
}

/// Fits a rendering into exactly six characters, right-justified.
pub(crate) fn fit6_chars(v: Vec<char>) -> (r: Vec<char>)
    ensures r@ == fit6(v@), r@.len() == 6,
{
    let mut t = v;
    if t.len() > 6 {
        t.truncate(6);
    }
    let mut out: Vec<char> = Vec::new();
    let pad: usize = 6 - t.len();
    let mut i: usize = 0;
    while i < pad
        invariant
            i <= pad,
            pad + t@.len() == 6,
            out@ == Seq::new(i as nat, |j: int| ' '),
        decreases pad - i,
    {
        out.push(' ');
        i = i + 1;
        proof {
            assert(out@ =~= Seq::new(i as nat, |j: int| ' '));
        }
    }
    let mut j: usize = 0;
    while j < t.len()
        invariant
            j <= t.len(),
            pad + t@.len() == 6,
            out@ == Seq::new(pad as nat, |k: int| ' ') + t@.take(j as int),
        decreases t.len() - j,
    {
        let c = t[j];
        out.push(c);
        j = j + 1;
        proof {
            assert(out@ =~= Seq::new(pad as nat, |k: int| ' ') + t@.take(j as int));
        }
    }
    proof {
        let s = v@;
        let tt = if s.len() > 6 { s.take(6) } else { s };
        assert(t@ =~= tt);
        assert(t@.take(t@.len() as int) =~= t@);
        assert(out@ =~= fit6(v@));
    }
    out
}

} // verus!
