//! "Nice number" helpers for producing rounded y-axis ranges.
//!
//! A nice number is a value `{1, 2, 5, 10} * 10^n`; the graph view snaps
//! its axis bounds to multiples of a nice tick spacing so that the labels
//! read cleanly.

use vstd::prelude::*;
use crate::decimal::{
    Dec, COEF_MAX, EXP_MAX, EXP_MIN, pow10, fin_val, iabs, n_digits,
    lemma_fin_val_sign, lemma_n_digits_at_most, lemma_n_digits_bounds,
    lemma_n_digits_shift, lemma_n_digits_unique, lemma_pow10_38, lemma_pow10_adds,
    lemma_pow10_increases, lemma_pow10_pos, lemma_pow10_vals,
    pow10_u128, digits_u128, spec_neg,
};

verus! {

/// Provides `abs`, `floor`, `ceil`, `decomp` and `nice` on a decimal type.
///
/// The three spec functions tie the executable operations to a
/// mathematical reading: `nice_wf` is the representation invariant,
/// `nice_fin` tells a finite value from the sentinels, and `nice_val` is
/// the value scaled to an integer (by `10^400` for [`Dec`]).
pub trait Dec64Nice: Sized {
    /// Representation invariant of the decimal type.
    spec fn nice_wf(self) -> bool;

    /// A finite value, as opposed to a sentinel or an infinity.
    spec fn nice_fin(self) -> bool;

    /// The value, scaled to a mathematical integer.
    spec fn nice_val(self) -> int;

    /// The overflow marker (an infinity) carrying the sign `neg`.
    spec fn nice_big(self, neg: bool) -> bool;

    /// The exact representation `nice` returns on the given input.
    spec fn nice_rep(self, d: Self, round: bool) -> bool;

    /// Return absolute value.
    fn abs(self) -> (r: Self)
        requires self.nice_wf(),
        ensures
            r.nice_wf(),
            self.nice_fin() ==> r.nice_fin() && r.nice_val() == iabs(self.nice_val()),
    ;

    /// Return floor (the largest integer not above the input).
    fn floor(self) -> (r: Self)
        requires self.nice_wf(), self.nice_fin(),
        ensures
            r.nice_wf(),
            r.nice_fin(),
            r.nice_val() == (self.nice_val() / pow10(400)) * pow10(400),
    ;

    /// Return ceiling (the smallest integer not below the input).
    fn ceil(self) -> (r: Self)
        requires self.nice_wf(), self.nice_fin(),
        ensures
            r.nice_wf(),
            r.nice_fin(),
            r.nice_val() == -((-self.nice_val() / pow10(400)) * pow10(400)),
    ;

    /// Return exponent and mantissa such that `1 <= |mantissa| < 10`.
    fn decomp(self) -> (r: (i32, Self))
        requires self.nice_wf(), self.nice_fin(), self.nice_val() != 0,
        ensures
            r.1.nice_wf(),
            r.1.nice_fin(),
            pow10(400) <= iabs(r.1.nice_val()) < pow10(401),
            (self.nice_val() > 0) <==> (r.1.nice_val() > 0),
            r.0 >= 0 ==> self.nice_val() == r.1.nice_val() * pow10(r.0 as nat),
            r.0 < 0 ==> self.nice_val() * pow10((-r.0) as nat) == r.1.nice_val(),
    ;

    /// Round to a near nice number, `{1, 2, 5, 10} * 10^n`.
    fn nice(self, round: bool) -> (r: Self)
        requires self.nice_wf(), self.nice_fin(), self.nice_val() != 0,
        ensures
            r.nice_rep(self, round),
            r.nice_wf(),
            iabs(spec_nice_val(self.nice_val(), round)) <= COEF_MAX * pow10(800)
                ==> r.nice_fin() && r.nice_val() == spec_nice_val(self.nice_val(), round),
            iabs(spec_nice_val(self.nice_val(), round)) > COEF_MAX * pow10(800)
                ==> r.nice_big(self.nice_val() < 0),
            r.nice_fin() ==> r.nice_val() == spec_nice_val(self.nice_val(), round),
            r.nice_fin() && self.nice_val() > 0 ==> r.nice_val() > 0,
    ;
}

/// The nice mantissa chosen for a positive scaled magnitude `s`: in round
/// mode the thresholds sit at 1.5, 3 and 7; in ceiling mode at the 1, 2
/// and 5 boundaries themselves, each mapping to itself.
pub open spec fn nice_mag(s: int, round: bool) -> int
    recommends s > 0,
{
    let p = pow10((n_digits(s as nat) - 1) as nat);
    if round {
        if 2 * s < 3 * p { 1 } else if s < 3 * p { 2 } else if s < 7 * p { 5 } else { 10 }
    } else {
        if s <= p { 1 } else if s <= 2 * p { 2 } else if s <= 5 * p { 5 } else { 10 }
    }
}

/// The scaled value of `nice` on a nonzero scaled input `x`: the chosen
/// mantissa at the decade of the leading digit, with the sign kept.
pub open spec fn spec_nice_val(x: int, round: bool) -> int
    recommends x != 0,
{
    let s = iabs(x);
    let mag = nice_mag(s, round) * pow10((n_digits(s as nat) - 1) as nat);
    if x < 0 { -mag } else { mag }
}

impl Dec64Nice for Dec {
    open spec fn nice_wf(self) -> bool {
        self.wf()
    }

    open spec fn nice_fin(self) -> bool {
        self.is_fin()
    }

    open spec fn nice_val(self) -> int {
        self.val()
    }

    open spec fn nice_big(self, neg: bool) -> bool {
        self == (Dec::Inf { neg })
    }

    open spec fn nice_rep(self, d: Dec, round: bool) -> bool {
        self == spec_nice_dec(d, round)
    }

    fn abs(self) -> (r: Self) {
        proof {
            if let Dec::Fin { m, e } = self {
                lemma_fin_val_sign(m as int, e as int);
            }
        }
        match self {
            Dec::Fin { m, e } => {
                if m < 0 { Dec::Fin { m: -m, e } } else { self }
            },
            Dec::Inf { .. } => Dec::Inf { neg: false },
            Dec::Nan => Dec::Nan,
        }
    }

    fn floor(self) -> (r: Self) {
        match self {
            Dec::Fin { m, e } => {
                proof {
                    lemma_pow10_pos(400);
                    lemma_pow10_vals();
                    lemma_fin_val_sign(m as int, e as int);
                }
                if e >= 0 {
                    proof {
                        lemma_pow10_pos((e + 400) as nat);
                        lemma_pow10_pos(e as nat);
                        let u = (m as int) * pow10(e as nat);
                        lemma_pow10_adds(e as nat, 400);
                        assert(fin_val(m as int, e as int) == u * pow10(400)) by {
                            vstd::arithmetic::mul::lemma_mul_is_associative(m as int, pow10(e as nat), pow10(400));
                        }
                        assert((u * pow10(400)) / pow10(400) == u) by {
                            vstd::arithmetic::div_mod::lemma_fundamental_div_mod_converse(u * pow10(400), pow10(400), u, 0);
                        }
                    }
                    self
                } else if e < -16 {
                    proof {
                        lemma_pow10_pos((e + 400) as nat);
                    }
                    if m >= 0 {
                        proof {
                            let v = fin_val(m as int, e as int);
                            assert(v < pow10(400)) by {
                                assert((m as int) * pow10((e + 400) as nat) <= COEF_MAX * pow10((e + 400) as nat)) by {
                                    vstd::arithmetic::mul::lemma_mul_inequality(m as int, COEF_MAX as int, pow10((e + 400) as nat));
                                }
                                assert(COEF_MAX * pow10((e + 400) as nat) < pow10(16) * pow10((e + 400) as nat)) by {
                                    lemma_pow10_pos((e + 400) as nat);
                                    vstd::arithmetic::mul::lemma_mul_strict_inequality(COEF_MAX as int, pow10(16), pow10((e + 400) as nat));
                                }
                                lemma_pow10_adds(16, (e + 400) as nat);
                                lemma_pow10_increases((e + 416) as nat, 400);
                            }
                            assert(v / pow10(400) == 0) by {
                                vstd::arithmetic::div_mod::lemma_basic_div(v, pow10(400));
                            }
                        }
                        Dec::Fin { m: 0, e: 0 }
                    } else {
                        proof {
                            let v = fin_val(m as int, e as int);
                            assert(-v < pow10(400)) by {
                                assert(iabs(m as int) * pow10((e + 400) as nat) <= COEF_MAX * pow10((e + 400) as nat)) by {
                                    vstd::arithmetic::mul::lemma_mul_inequality(iabs(m as int), COEF_MAX as int, pow10((e + 400) as nat));
                                }
                                assert(COEF_MAX * pow10((e + 400) as nat) < pow10(16) * pow10((e + 400) as nat)) by {
                                    lemma_pow10_pos((e + 400) as nat);
                                    vstd::arithmetic::mul::lemma_mul_strict_inequality(COEF_MAX as int, pow10(16), pow10((e + 400) as nat));
                                }
                                lemma_pow10_adds(16, (e + 400) as nat);
                                lemma_pow10_increases((e + 416) as nat, 400);
                                vstd::arithmetic::mul::lemma_mul_unary_negation(m as int, pow10((e + 400) as nat));
                            }
                            assert(v / pow10(400) == -1) by {
                                vstd::arithmetic::div_mod::lemma_fundamental_div_mod_converse(v, pow10(400), -1, v + pow10(400));
                            }
                            assert(fin_val(-1, 0) == -1 * pow10(400));
                        }
                        Dec::Fin { m: -1, e: 0 }
                    }
                } else {
                    let k: u32 = (-e) as u32;
                    let pw128 = pow10_u128(k);
                    proof {
                        if (k as nat) < 16 {
                            lemma_pow10_increases(k as nat, 16);
                        }
                    }
                    proof {
                        lemma_pow10_pos(k as nat);
                        assert(pw128 <= pow10(16));
                    }
                    let pw: u64 = pw128 as u64;
                    let pm: u64 = if m < 0 { (-m) as u64 } else { m as u64 };
                    let q: u64 = pm / pw;
                    let rem: u64 = pm % pw;
                    let qi: i64 = if m >= 0 {
                        q as i64
                    } else if rem == 0 {
                        -(q as i64)
                    } else {
                        -(q as i64) - 1
                    };
                    proof {
                        let p400 = pow10(400);
                        let pk = pow10(k as nat);
                        let v = fin_val(m as int, e as int);
                        lemma_pow10_pos(k as nat);
                        lemma_pow10_pos((e + 400) as nat);
                        vstd::arithmetic::div_mod::lemma_fundamental_div_mod(pm as int, pk);
                        // m == qi * 10^k + rem', with the remainder in [0, 10^k)
                        let remp: int = if m >= 0 { rem as int } else if rem == 0 { 0 } else { pk - rem };
                        assert(m as int == qi * pk + remp) by {
                            vstd::arithmetic::mul::lemma_mul_is_commutative(q as int, pk);
                            if m < 0 && rem != 0 {
                                assert((-(q as int) - 1) * pk == -(q as int) * pk - pk) by {
                                    vstd::arithmetic::mul::lemma_mul_is_distributive_sub_other_way(pk, -(q as int), 1);
                                }
                                vstd::arithmetic::mul::lemma_mul_unary_negation(q as int, pk);
                            }
                            if m < 0 && rem == 0 {
                                vstd::arithmetic::mul::lemma_mul_unary_negation(q as int, pk);
                            }
                        }
                        // v == qi * 10^400 + remp * 10^(e+400), remainder below 10^400
                        lemma_pow10_adds(k as nat, (e + 400) as nat);
                        assert(v == (qi * pk + remp) * pow10((e + 400) as nat));
                        assert(v == (qi * pk) * pow10((e + 400) as nat) + remp * pow10((e + 400) as nat)) by {
                            vstd::arithmetic::mul::lemma_mul_is_distributive_add_other_way(pow10((e + 400) as nat), qi * pk, remp);
                        }
                        assert((qi * pk) * pow10((e + 400) as nat) == qi * p400) by {
                            vstd::arithmetic::mul::lemma_mul_is_associative(qi as int, pk, pow10((e + 400) as nat));
                        }
                        assert(remp * pow10((e + 400) as nat) < pk * pow10((e + 400) as nat)) by {
                            vstd::arithmetic::mul::lemma_mul_strict_inequality(remp, pk, pow10((e + 400) as nat));
                        }
                        assert(remp * pow10((e + 400) as nat) >= 0) by {
                            vstd::arithmetic::mul::lemma_mul_nonnegative(remp, pow10((e + 400) as nat));
                        }
                        assert(v / p400 == qi) by {
                            vstd::arithmetic::div_mod::lemma_fundamental_div_mod_converse(
                                v, p400, qi as int, remp * pow10((e + 400) as nat));
                        }
                        // the result coefficient stays in range
                        assert(q <= pm / 10) by {
                            if 1 < k {
                                lemma_pow10_increases(1, k as nat);
                            }
                            vstd::arithmetic::div_mod::lemma_div_is_ordered_by_denominator(pm as int, 10, pk);
                        }
                    }
                    Dec::Fin { m: qi, e: 0 }
                }
            },
            _ => self,
        }
    }

    fn ceil(self) -> (r: Self) {
        let n = self.neg();
        let f = n.floor();
        proof {
            assert(n.val() == -self.val());
        }
        f.neg()
    }

    fn decomp(self) -> (r: (i32, Self)) {
        match self {
            Dec::Fin { m, e } => {
                let pm: u64 = if m < 0 { (-m) as u64 } else { m as u64 };
                proof {
                    lemma_pow10_vals();
                    lemma_fin_val_sign(m as int, e as int);
                    lemma_n_digits_at_most(pm as nat, 16);
                    lemma_n_digits_bounds(pm as nat);
                }
                let dg: u32 = digits_u128(pm as u128);
                let eo: i32 = e + dg as i32 - 1;
                let ef: i32 = 1 - dg as i32;
                proof {
                    let pmi = pm as int;
                    let d = dg as nat;
                    // the mantissa value lies in [10^400, 10^401)
                    lemma_pow10_pos((ef + 400) as nat);
                    assert(pow10((d - 1) as nat) * pow10((ef + 400) as nat) <= pmi * pow10((ef + 400) as nat)) by {
                        vstd::arithmetic::mul::lemma_mul_inequality(pow10((d - 1) as nat), pmi, pow10((ef + 400) as nat));
                    }
                    assert(pmi * pow10((ef + 400) as nat) < pow10(d) * pow10((ef + 400) as nat)) by {
                        vstd::arithmetic::mul::lemma_mul_strict_inequality(pmi, pow10(d), pow10((ef + 400) as nat));
                    }
                    lemma_pow10_adds((d - 1) as nat, (ef + 400) as nat);
                    lemma_pow10_adds(d, (ef + 400) as nat);
                    assert(iabs(fin_val(m as int, ef as int)) == pmi * pow10((ef + 400) as nat)) by {
                        vstd::arithmetic::mul::lemma_mul_unary_negation(pmi, pow10((ef + 400) as nat));
                    }
                    lemma_fin_val_sign(m as int, ef as int);
                    // the value equation between the two representations
                    if eo >= 0 {
                        lemma_pow10_adds((ef + 400) as nat, eo as nat);
                        assert(fin_val(m as int, ef as int) * pow10(eo as nat)
                            == (m as int) * pow10((e + 400) as nat)) by {
                            vstd::arithmetic::mul::lemma_mul_is_associative(m as int, pow10((ef + 400) as nat), pow10(eo as nat));
                        }
                    } else {
                        lemma_pow10_adds((e + 400) as nat, (-eo) as nat);
                        assert(fin_val(m as int, e as int) * pow10((-eo) as nat)
                            == (m as int) * pow10((ef + 400) as nat)) by {
                            vstd::arithmetic::mul::lemma_mul_is_associative(m as int, pow10((e + 400) as nat), pow10((-eo) as nat));
                        }
                    }
                }
                (eo, Dec::Fin { m, e: ef })
            },
            _ => (0, self),
        }
    }

    fn nice(self, round: bool) -> (r: Self) {
        nice_dec(self, round)
    }
}

/// The snapping algorithm as a function of the representation: the
/// coefficient's digit count fixes the decade, the mantissa thresholds
/// pick the step, and a decade above the exponent range widens the
/// coefficient or overflows to infinity.
pub open spec fn spec_nice_dec(d: Dec, round: bool) -> Dec
    recommends d is Fin, d->Fin_m != 0,
{
    let m = d->Fin_m as int;
    let e = d->Fin_e as int;
    let pm = iabs(m);
    let dg = n_digits(pm as nat) as int;
    let p = pow10((dg - 1) as nat);
    let nm: int = if round {
        if 2 * pm < 3 * p { 1 } else if pm < 3 * p { 2 } else if pm < 7 * p { 5 } else { 10 }
    } else {
        if pm <= p { 1 } else if pm <= 2 * p { 2 } else if pm <= 5 * p { 5 } else { 10 }
    };
    let nm2: int = if nm == 10 { 1 } else { nm };
    let eo: int = if nm == 10 { e + dg } else { e + dg - 1 };
    if eo <= EXP_MAX as int {
        Dec::Fin { m: if m < 0 { (-nm2) as i64 } else { nm2 as i64 }, e: eo as i32 }
    } else {
        let co = nm2 * pow10((eo - 400) as nat);
        if co <= COEF_MAX as int {
            Dec::Fin { m: if m < 0 { (-co) as i64 } else { co as i64 }, e: EXP_MAX }
        } else {
            Dec::Inf { neg: m < 0 }
        }
    }
}

/// Multiplying both sides by a positive factor keeps comparisons.
proof fn lemma_scale_cmp(a: int, b: int, q: int)
    requires q > 0,
    ensures
        (a * q < b * q) <==> (a < b),
        (a * q <= b * q) <==> (a <= b),
{
    if a < b {
        vstd::arithmetic::mul::lemma_mul_strict_inequality(a, b, q);
    }
    if b < a {
        vstd::arithmetic::mul::lemma_mul_strict_inequality(b, a, q);
    }
}

/// Snaps a nonzero finite decimal to a nice number.
fn nice_dec(d: Dec, round: bool) -> (r: Dec)
    requires d.wf(), d.is_fin(), d.val() != 0,
    ensures
        r == spec_nice_dec(d, round),
        r.wf(),
        iabs(spec_nice_val(d.val(), round)) <= COEF_MAX * pow10(800)
            ==> r.is_fin() && r.val() == spec_nice_val(d.val(), round),
        iabs(spec_nice_val(d.val(), round)) > COEF_MAX * pow10(800)
            ==> r == (Dec::Inf { neg: d.val() < 0 }),
        r.is_fin() ==> r.val() == spec_nice_val(d.val(), round),
        r.is_fin() && d.val() > 0 ==> r.val() > 0,
{
    let (m, e): (i64, i32) = match d {
        Dec::Fin { m, e } => (m, e),
        _ => (0, 0),
    };
    proof {
        lemma_fin_val_sign(m as int, e as int);
        lemma_pow10_vals();
        lemma_pow10_pos((e + 400) as nat);
        lemma_pow10_pos(800);
    }
    let pm: u64 = if m < 0 { (-m) as u64 } else { m as u64 };
    proof {
        lemma_n_digits_at_most(pm as nat, 16);
        lemma_n_digits_bounds(pm as nat);
    }
    let dg: u32 = digits_u128(pm as u128);
    let p128: u128 = pow10_u128(dg - 1);
    let pm128: u128 = pm as u128;
    proof {
        if ((dg - 1) as nat) < 16 {
            lemma_pow10_increases((dg - 1) as nat, 16);
        }
    }
    let nm: u64 = if round {
        if 2 * pm128 < 3 * p128 { 1 }
        else if pm128 < 3 * p128 { 2 }
        else if pm128 < 7 * p128 { 5 }
        else { 10 }
    } else {
        if pm128 <= p128 { 1 }
        else if pm128 <= 2 * p128 { 2 }
        else if pm128 <= 5 * p128 { 5 }
        else { 10 }
    };
    let ghost x: int = d.val();
    let ghost s: int = iabs(x);
    let ghost q: int = pow10((e + 400) as nat);
    let ghost bigp: int = pow10((n_digits(s as nat) - 1) as nat);
    proof {
        // the scaled magnitude has the coefficient's digits shifted up
        assert(s == (pm as int) * q) by {
            vstd::arithmetic::mul::lemma_mul_unary_negation(m as int, q);
        }
        lemma_n_digits_shift(pm as nat, (e + 400) as nat);
        assert(n_digits(s as nat) == dg + e + 400);
        lemma_pow10_adds((dg - 1) as nat, (e + 400) as nat);
        assert(bigp == (p128 as int) * q);
        // each threshold comparison transfers from coefficients to values
        assert(2 * s == (2 * (pm as int)) * q && 3 * bigp == (3 * (p128 as int)) * q
            && 7 * bigp == (7 * (p128 as int)) * q && 2 * bigp == (2 * (p128 as int)) * q
            && 5 * bigp == (5 * (p128 as int)) * q) by {
            vstd::arithmetic::mul::lemma_mul_is_associative(2, pm as int, q);
            vstd::arithmetic::mul::lemma_mul_is_associative(3, p128 as int, q);
            vstd::arithmetic::mul::lemma_mul_is_associative(7, p128 as int, q);
            vstd::arithmetic::mul::lemma_mul_is_associative(2, p128 as int, q);
            vstd::arithmetic::mul::lemma_mul_is_associative(5, p128 as int, q);
        }
        lemma_scale_cmp(2 * (pm as int), 3 * (p128 as int), q);
        lemma_scale_cmp(pm as int, 3 * (p128 as int), q);
        lemma_scale_cmp(pm as int, 7 * (p128 as int), q);
        lemma_scale_cmp(pm as int, p128 as int, q);
        lemma_scale_cmp(pm as int, 2 * (p128 as int), q);
        lemma_scale_cmp(pm as int, 5 * (p128 as int), q);
        assert(nm as int == nice_mag(s, round));
    }
    let mut nm2: u64 = nm;
    let mut eo: i64 = e as i64 + dg as i64 - 1;
    if nm2 == 10 {
        nm2 = 1;
        eo = eo + 1;
        proof {
            lemma_pow10_adds(1, (n_digits(s as nat) - 1) as nat);
            assert(10 * bigp == pow10(n_digits(s as nat)));
        }
    }
    proof {
        // in either case the result magnitude is nm2 * 10^(eo + 400)
        assert((nm2 as int) * pow10((eo + 400) as nat) == nice_mag(s, round) * bigp);
        lemma_pow10_pos((eo + 400) as nat);
        assert((nm2 as int) * pow10((eo + 400) as nat) > 0) by {
            vstd::arithmetic::mul::lemma_mul_strictly_positive(nm2 as int, pow10((eo + 400) as nat));
        }
    }
    if eo <= EXP_MAX as i64 {
        proof {
            // small exponents always fit: the magnitude is at most 5 * 10^800
            if eo + 400 < 800 {
                lemma_pow10_increases((eo + 400) as nat, 800);
            }
            assert((nm2 as int) * pow10((eo + 400) as nat) <= 5 * pow10(800)) by {
                vstd::arithmetic::mul::lemma_mul_upper_bound(nm2 as int, 5, pow10((eo + 400) as nat), pow10(800));
            }
        }
        let rm: i64 = if m < 0 { -(nm2 as i64) } else { nm2 as i64 };
        proof {
            lemma_fin_val_sign(nm2 as int, eo as int);
        }
        return Dec::Fin { m: rm, e: eo as i32 };
    }
    // the nice decade lies above 10^400: widen the coefficient instead
    let shift: u32 = (eo - 400) as u32;
    let pws: u128 = pow10_u128(shift);
    proof {
        if (shift as nat) < 16 {
            lemma_pow10_increases(shift as nat, 16);
        }
        assert((nm2 as int) * (pws as int) <= 5 * pow10(16)) by {
            vstd::arithmetic::mul::lemma_mul_upper_bound(nm2 as int, 5, pws as int, pow10(16));
        }
    }
    let co: u128 = (nm2 as u128) * pws;
    proof {
        // co * 10^800 equals the nice magnitude
        lemma_pow10_adds(shift as nat, 800);
        assert(((nm2 as int) * pow10(shift as nat)) * pow10(800)
            == (nm2 as int) * pow10((eo + 400) as nat)) by {
            vstd::arithmetic::mul::lemma_mul_is_associative(nm2 as int, pow10(shift as nat), pow10(800));
        }
        lemma_scale_cmp(co as int, COEF_MAX as int, pow10(800));
    }
    if co <= COEF_MAX as u128 {
        let rm: i64 = if m < 0 { -(co as i64) } else { co as i64 };
        proof {
            lemma_fin_val_sign(co as int, EXP_MAX as int);
        }
        Dec::Fin { m: rm, e: EXP_MAX }
    } else {
        Dec::Inf { neg: m < 0 }
    }
}

/// A twentieth of a nice number `{1, 2, 5} * 10^e`, as a value.
pub open spec fn spec_div20(dm: int, de: int) -> Dec {
    if dm == 1 {
        Dec::Fin { m: 5, e: (de - 2) as i32 }
    } else if dm == 2 {
        Dec::Fin { m: 1, e: (de - 1) as i32 }
    } else {
        Dec::Fin { m: 25, e: (de - 2) as i32 }
    }
}

/// A twentieth of a nice number `{1, 2, 5} * 10^e`, exactly.
fn div20(dm: i64, de: i32) -> (r: Dec)
    requires
        dm == 1 || dm == 2 || dm == 5,
        EXP_MIN + 2 <= de <= EXP_MAX,
    ensures
        r == spec_div20(dm as int, de as int),
        r.wf(),
        r is Fin,
        1 <= r->Fin_m <= 25,
        r.val() > 0,
        20 * r.val() == fin_val(dm as int, de as int),
{
    proof {
        lemma_pow10_vals();
        lemma_pow10_pos((de + 398) as nat);
        lemma_pow10_pos((de + 399) as nat);
        lemma_pow10_adds(2, (de + 398) as nat);
        lemma_pow10_adds(1, (de + 399) as nat);
        lemma_fin_val_sign(5, de as int - 2);
        lemma_fin_val_sign(1, de as int - 1);
        lemma_fin_val_sign(25, de as int - 2);
        assert(20 * (5 * pow10((de + 398) as nat)) == 100 * pow10((de + 398) as nat));
        assert(20 * (25 * pow10((de + 398) as nat)) == 5 * (100 * pow10((de + 398) as nat)));
        assert(20 * (1 * pow10((de + 399) as nat)) == 2 * (10 * pow10((de + 399) as nat)));
    }
    if dm == 1 {
        Dec::Fin { m: 5, e: de - 2 }
    } else if dm == 2 {
        Dec::Fin { m: 1, e: de - 1 }
    } else {
        Dec::Fin { m: 25, e: de - 2 }
    }
}

/// The flooring algorithm as a function of the representations: the
/// quotient of the aligned coefficients floored, scaled back by the tick
/// coefficient, the input itself where the gap or the product leaves the
/// multiple unrepresentable.
pub open spec fn spec_floor_mul(a: Dec, d: Dec) -> Dec
    recommends a is Fin, d is Fin,
{
    let ma = a->Fin_m as int;
    let ea = a->Fin_e as int;
    let md = d->Fin_m as int;
    let ed = d->Fin_e as int;
    if ea >= ed {
        if ea - ed > 22 {
            a
        } else {
            let num = ma * pow10((ea - ed) as nat);
            let sm = (num / md) * md;
            if -COEF_MAX <= sm <= COEF_MAX { Dec::Fin { m: sm as i64, e: ed as i32 } } else { a }
        }
    } else {
        if ed - ea > 20 {
            if ma >= 0 { Dec::Fin { m: 0, e: 0 } } else { spec_neg(d) }
        } else {
            let den = md * pow10((ed - ea) as nat);
            let sm = (ma / den) * md;
            if -COEF_MAX <= sm <= COEF_MAX { Dec::Fin { m: sm as i64, e: ed as i32 } } else { a }
        }
    }
}

/// The greatest multiple of the tick `d` that does not exceed `a`, or `a`
/// itself where that multiple would not be representable.
#[verifier::rlimit(100)]
fn floor_mul(a: &Dec, d: &Dec) -> (r: Dec)
    requires
        a.wf(), a.is_fin(),
        d.wf(), d.is_fin(),
        1 <= d->Fin_m <= 25,
        d.val() > 0,
    ensures
        r == spec_floor_mul(*a, *d),
        r.wf(),
        r is Fin,
        r.val() <= a.val(),
        r.val() == a.val() || r.val() == (a.val() / d.val()) * d.val(),
{
    let (ma, ea): (i64, i32) = match *a {
        Dec::Fin { m, e } => (m, e),
        _ => (0, 0),
    };
    let (md, ed): (i64, i32) = match *d {
        Dec::Fin { m, e } => (m, e),
        _ => (1, 0),
    };
    proof {
        lemma_pow10_vals();
        lemma_pow10_38();
        lemma_pow10_pos((ea + 400) as nat);
        lemma_pow10_pos((ed + 400) as nat);
        lemma_fin_val_sign(ma as int, ea as int);
        lemma_fin_val_sign(md as int, ed as int);
    }
    let ghost av: int = a.val();
    let ghost dv: int = d.val();
    if ea >= ed {
        let g: u32 = (ea - ed) as u32;
        if g > 22 {
            return *a;
        }
        let fg: u128 = pow10_u128(g);
        proof {
            if (g as nat) < 22 {
                lemma_pow10_increases(g as nat, 22);
            }
            lemma_pow10_pos(g as nat);
            lemma_pow10_pos(22);
            lemma_pow10_adds(16, 22);
            assert(pow10(22) < pow10(38)) by {
                lemma_pow10_increases(22, 38);
            }
            assert(iabs(ma as int) * (fg as int) <= COEF_MAX * pow10(22)) by {
                vstd::arithmetic::mul::lemma_mul_upper_bound(iabs(ma as int), COEF_MAX as int, fg as int, pow10(22));
            }
            assert(COEF_MAX * pow10(22) < pow10(16) * pow10(22)) by {
                vstd::arithmetic::mul::lemma_mul_strict_inequality(COEF_MAX as int, pow10(16), pow10(22));
            }
        }
        let pa: u128 = (if ma < 0 { (-ma) as u128 } else { ma as u128 }) * fg;
        let mdu: u128 = md as u128;
        let qn: u128 = pa / mdu;
        let rem: u128 = pa % mdu;
        let q: i128 = if ma >= 0 {
            qn as i128
        } else if rem == 0 {
            -(qn as i128)
        } else {
            -(qn as i128) - 1
        };
        proof {
            vstd::arithmetic::div_mod::lemma_fundamental_div_mod(pa as int, md as int);
            assert((qn as int) * (md as int) <= pa as int) by {
                vstd::arithmetic::mul::lemma_mul_is_commutative(qn as int, md as int);
            }
            assert(((qn as int) + 1) * (md as int) == (qn as int) * (md as int) + (md as int)) by {
                vstd::arithmetic::mul::lemma_mul_is_distributive_add_other_way(md as int, qn as int, 1);
            }
            assert((qn as int) * (md as int) >= 0) by {
                vstd::arithmetic::mul::lemma_mul_nonnegative(qn as int, md as int);
            }
            assert((-(qn as int)) * (md as int) == -((qn as int) * (md as int))) by {
                vstd::arithmetic::mul::lemma_mul_unary_negation(qn as int, md as int);
            }
            assert((-(qn as int) - 1) * (md as int) == -(((qn as int) + 1) * (md as int))) by {
                vstd::arithmetic::mul::lemma_mul_unary_negation((qn as int) + 1, md as int);
                vstd::arithmetic::mul::lemma_mul_is_distributive_add_other_way(md as int, qn as int, 1);
                vstd::arithmetic::mul::lemma_mul_is_distributive_sub_other_way(md as int, -(qn as int), 1);
            }
        }
        let sm: i128 = q * (md as i128);
        proof {
            let num: int = if ma >= 0 { pa as int } else { -(pa as int) };
            let pk = pow10(g as nat);
            let qa = pow10((ed + 400) as nat);
            // num is the coefficient of a at exponent ed, and q is its
            // floor quotient by the tick coefficient
            let remp: int = if ma >= 0 { rem as int } else if rem == 0 { 0 } else { md - rem };
            assert(num == q * md + remp) by {
                vstd::arithmetic::mul::lemma_mul_is_commutative(qn as int, md as int);
                vstd::arithmetic::mul::lemma_mul_unary_negation(qn as int, md as int);
                assert((-(qn as int) - 1) * (md as int) == -(qn as int) * (md as int) - (md as int)) by {
                    vstd::arithmetic::mul::lemma_mul_is_distributive_sub_other_way(md as int, -(qn as int), 1);
                }
            }
            // av == num * 10^(ed+400)
            lemma_pow10_adds(g as nat, (ed + 400) as nat);
            assert(av == (ma as int) * (pk * qa));
            assert(av == ((ma as int) * pk) * qa) by {
                vstd::arithmetic::mul::lemma_mul_is_associative(ma as int, pk, qa);
            }
            assert(num == (ma as int) * pk) by {
                vstd::arithmetic::mul::lemma_mul_unary_negation(ma as int, pk);
                vstd::arithmetic::mul::lemma_mul_unary_negation(iabs(ma as int), pk);
            }
            // av == q * dv + remp * qa with the remainder in [0, dv)
            assert(av == (q * md + remp) * qa);
            assert(av == (q * md) * qa + remp * qa) by {
                vstd::arithmetic::mul::lemma_mul_is_distributive_add_other_way(qa, q * md, remp);
            }
            assert((q * md) * qa == q * dv) by {
                vstd::arithmetic::mul::lemma_mul_is_associative(q as int, md as int, qa);
            }
            assert(0 <= remp * qa < (md as int) * qa) by {
                vstd::arithmetic::mul::lemma_mul_nonnegative(remp, qa);
                vstd::arithmetic::mul::lemma_mul_strict_inequality(remp, md as int, qa);
            }
            assert(av / dv == q) by {
                vstd::arithmetic::div_mod::lemma_fundamental_div_mod_converse(av, dv, q as int, remp * qa);
            }
            assert(q * dv <= av);
            // the same quotient at coefficient level, for the stated form
            assert(0 <= remp < md);
            assert(num / (md as int) == q as int) by {
                vstd::arithmetic::div_mod::lemma_fundamental_div_mod_converse(num, md as int, q as int, remp);
            }
        }
        if -(COEF_MAX as i128) <= sm && sm <= COEF_MAX as i128 {
            proof {
                assert(fin_val(sm as int, ed as int) == (q as int) * ((md as int) * pow10((ed + 400) as nat))) by {
                    vstd::arithmetic::mul::lemma_mul_is_associative(q as int, md as int, pow10((ed + 400) as nat));
                }
            }
            Dec::Fin { m: sm as i64, e: ed }
        } else {
            *a
        }
    } else {
        let k: u32 = (ed - ea) as u32;
        if k > 20 {
            // |a| is smaller than one tick
            proof {
                let qa = pow10((ea + 400) as nat);
                assert(iabs(av) < pow10(16) * qa) by {
                    vstd::arithmetic::mul::lemma_mul_strict_inequality(iabs(ma as int), pow10(16), qa);
                    vstd::arithmetic::mul::lemma_mul_unary_negation(ma as int, qa);
                }
                lemma_pow10_adds(16, (ea + 400) as nat);
                lemma_pow10_increases((ea + 416) as nat, (ed + 400) as nat);
                assert(pow10((ed + 400) as nat) <= dv) by {
                    vstd::arithmetic::mul::lemma_mul_inequality(1, md as int, pow10((ed + 400) as nat));
                    vstd::arithmetic::mul::lemma_mul_is_commutative(md as int, pow10((ed + 400) as nat));
                }
                assert(iabs(av) < dv);
                if ma >= 0 {
                    assert(av / dv == 0) by {
                        vstd::arithmetic::div_mod::lemma_basic_div(av, dv);
                    }
                } else {
                    assert(av / dv == -1) by {
                        vstd::arithmetic::div_mod::lemma_fundamental_div_mod_converse(av, dv, -1, av + dv);
                    }
                }
            }
            if ma >= 0 {
                proof {
                    lemma_fin_val_sign(0, 0);
                }
                Dec::Fin { m: 0, e: 0 }
            } else {
                proof {
                    lemma_fin_val_sign(md as int, ed as int);
                }
                d.neg()
            }
        } else {
            let fk: u128 = pow10_u128(k);
            proof {
                if (k as nat) < 20 {
                    lemma_pow10_increases(k as nat, 20);
                }
                lemma_pow10_pos(20);
                lemma_pow10_adds(2, 20);
                lemma_pow10_increases(22, 38);
                assert((md as int) * (fk as int) <= 25 * pow10(20)) by {
                    vstd::arithmetic::mul::lemma_mul_upper_bound(md as int, 25, fk as int, pow10(20));
                }
                assert(25 * pow10(20) < 100 * pow10(20));
                lemma_pow10_pos(k as nat);
                assert((md as u128) * fk >= 1) by {
                    vstd::arithmetic::mul::lemma_mul_strictly_positive(md as int, fk as int);
                }
            }
            let den: u128 = (md as u128) * fk;
            let pa: u128 = if ma < 0 { (-ma) as u128 } else { ma as u128 };
            let qn: u128 = pa / den;
            let rem: u128 = pa % den;
            let q: i64 = if ma >= 0 {
                qn as i64
            } else if rem == 0 {
                -(qn as i64)
            } else {
                -(qn as i64) - 1
            };
            proof {
                vstd::arithmetic::div_mod::lemma_fundamental_div_mod(pa as int, den as int);
                assert(qn <= pa) by {
                    vstd::arithmetic::div_mod::lemma_div_nonincreasing(pa as int, den as int);
                    vstd::arithmetic::div_mod::lemma_div_pos_is_pos(pa as int, den as int);
                }
                assert(((qn as int) + 1) * (md as int) <= (COEF_MAX + 1) * 25) by {
                    vstd::arithmetic::mul::lemma_mul_upper_bound((qn as int) + 1, COEF_MAX + 1, md as int, 25);
                }
                assert((qn as int) * (md as int) <= ((qn as int) + 1) * (md as int)) by {
                    vstd::arithmetic::mul::lemma_mul_inequality(qn as int, (qn as int) + 1, md as int);
                }
                assert((qn as int) * (md as int) >= 0) by {
                    vstd::arithmetic::mul::lemma_mul_nonnegative(qn as int, md as int);
                }
                assert((-(qn as int)) * (md as int) == -((qn as int) * (md as int))) by {
                    vstd::arithmetic::mul::lemma_mul_unary_negation(qn as int, md as int);
                }
                assert((-(qn as int) - 1) * (md as int) == -(((qn as int) + 1) * (md as int))) by {
                    vstd::arithmetic::mul::lemma_mul_unary_negation((qn as int) + 1, md as int);
                    vstd::arithmetic::mul::lemma_mul_is_distributive_add_other_way(md as int, qn as int, 1);
                    vstd::arithmetic::mul::lemma_mul_is_distributive_sub_other_way(md as int, -(qn as int), 1);
                }
            }
            let sm: i64 = q * md;
            proof {
                let qa = pow10((ea + 400) as nat);
                let remp: int = if ma >= 0 { rem as int } else if rem == 0 { 0 } else { den - rem };
                assert(ma as int == (q as int) * (den as int) + remp) by {
                    vstd::arithmetic::mul::lemma_mul_is_commutative(qn as int, den as int);
                    vstd::arithmetic::mul::lemma_mul_unary_negation(qn as int, den as int);
                    assert((-(qn as int) - 1) * (den as int) == -(qn as int) * (den as int) - (den as int)) by {
                        vstd::arithmetic::mul::lemma_mul_is_distributive_sub_other_way(den as int, -(qn as int), 1);
                    }
                }
                // av == q * (den * qa) + remp * qa, remainder within one tick
                assert(av == ((q as int) * (den as int) + remp) * qa);
                assert(av == ((q as int) * (den as int)) * qa + remp * qa) by {
                    vstd::arithmetic::mul::lemma_mul_is_distributive_add_other_way(qa, (q as int) * (den as int), remp);
                }
                assert(((q as int) * (den as int)) * qa == (q as int) * ((den as int) * qa)) by {
                    vstd::arithmetic::mul::lemma_mul_is_associative(q as int, den as int, qa);
                }
                // den * qa is exactly dv
                lemma_pow10_adds(k as nat, (ea + 400) as nat);
                assert((den as int) * qa == (md as int) * ((fk as int) * qa)) by {
                    vstd::arithmetic::mul::lemma_mul_is_associative(md as int, fk as int, qa);
                }
                assert((den as int) * qa == dv);
                assert(0 <= remp * qa < dv) by {
                    vstd::arithmetic::mul::lemma_mul_nonnegative(remp, qa);
                    vstd::arithmetic::mul::lemma_mul_strict_inequality(remp, den as int, qa);
                }
                assert(av / dv == q) by {
                    vstd::arithmetic::div_mod::lemma_fundamental_div_mod_converse(av, dv, q as int, remp * qa);
                }
                assert((q as int) * dv <= av);
                // the same quotient at coefficient level, for the stated form
                assert(0 <= remp < den);
                assert((ma as int) / (den as int) == q as int) by {
                    vstd::arithmetic::div_mod::lemma_fundamental_div_mod_converse(ma as int, den as int, q as int, remp);
                }
                assert(fin_val(sm as int, ed as int) == (q as int) * ((md as int) * pow10((ed + 400) as nat))) by {
                    vstd::arithmetic::mul::lemma_mul_is_associative(q as int, md as int, pow10((ed + 400) as nat));
                }
            }
            if -COEF_MAX <= sm && sm <= COEF_MAX {
                proof {
                    assert(sm as int == ((ma as int) / (den as int)) * (md as int));
                    assert(Dec::Fin { m: sm, e: ed } == spec_floor_mul(*a, *d));
                    assert(fin_val(sm as int, ed as int) <= a.val());
                    assert(fin_val(sm as int, ed as int) == (a.val() / d.val()) * d.val());
                }
                Dec::Fin { m: sm, e: ed }
            } else {
                *a
            }
        }
    }
}

/// The ceiling as the mirrored floor: negate, floor, negate.
pub open spec fn spec_ceil_mul(a: Dec, d: Dec) -> Dec {
    spec_neg(spec_floor_mul(spec_neg(a), d))
}

/// The least multiple of the tick `d` that is not below `a`, or `a` itself
/// where that multiple would not be representable.
fn ceil_mul(a: &Dec, d: &Dec) -> (r: Dec)
    requires
        a.wf(), a.is_fin(),
        d.wf(), d.is_fin(),
        1 <= d->Fin_m <= 25,
        d.val() > 0,
    ensures
        r == spec_ceil_mul(*a, *d),
        r.wf(),
        r is Fin,
        r.val() >= a.val(),
        r.val() == a.val() || r.val() == -((-a.val() / d.val()) * d.val()),
{
    let na = a.neg();
    let f = floor_mul(&na, d);
    f.neg()
}

/// The lower of the two range inputs, the arguments swapped when inverted.
pub open spec fn spec_range_lo(min: Dec, max: Dec) -> Dec {
    if min.spec_lt(max) { min } else { max }
}

/// The upper of the two range inputs: a degenerate pair is widened by one
/// unit, or — where adding one truncates away entirely — by one unit in
/// the last place.
pub open spec fn spec_range_hi(min: Dec, max: Dec) -> Dec {
    let lo = spec_range_lo(min, max);
    let hi0 = if min.spec_lt(max) { max } else { min };
    if lo.spec_eq_val(hi0) {
        let h1 = crate::decimal::spec_sub(lo, Dec::Fin { m: -1i64, e: 0i32 });
        if h1 is Fin && lo.spec_lt(h1) { h1 } else { crate::decimal::spec_next_up(lo) }
    } else {
        hi0
    }
}

/// Twenty times the tick spacing of a range: the span snapped to a nice
/// number in ceiling mode and snapped again in round mode, as scaled value.
pub open spec fn spec_tick20(min: Dec, max: Dec) -> int {
    let rv = crate::decimal::spec_sub(spec_range_hi(min, max), spec_range_lo(min, max)).val();
    spec_nice_val(spec_nice_val(rv, false), true)
}

/// The whole bound computation as a function of the two inputs: the
/// normalized pair, then the snapped range, the tick, and the floor and
/// ceiling multiples; every guard that cannot be met keeps the inputs.
pub open spec fn spec_nice_range(min: Dec, max: Dec) -> (Dec, Dec) {
    let lo = spec_range_lo(min, max);
    let hi = spec_range_hi(min, max);
    if !(hi is Fin) {
        (lo, hi)
    } else {
        let range = crate::decimal::spec_sub(hi, lo);
        let range_pos = match range {
            Dec::Nan => false,
            Dec::Inf { neg } => !neg,
            Dec::Fin { .. } => range.val() > 0,
        };
        if !(range is Fin) || !range_pos {
            (lo, hi)
        } else {
            let r1 = spec_nice_dec(range, false);
            if !(r1 is Fin) {
                (lo, hi)
            } else {
                let r2 = spec_nice_dec(r1, true);
                if !(r2 is Fin) {
                    (lo, hi)
                } else {
                    let dm = r2->Fin_m as int;
                    let de = r2->Fin_e as int;
                    if !(dm == 1 || dm == 2 || dm == 5) || de < EXP_MIN as int + 2 {
                        (lo, hi)
                    } else {
                        let d = spec_div20(dm, de);
                        (spec_floor_mul(lo, d), spec_ceil_mul(hi, d))
                    }
                }
            }
        }
    }
}

/// Creates a nicely rounded pair of bounds from the input range.
///
/// The lower bound never exceeds either input and the upper bound is
/// never below either input; the pair is never degenerate, the upper
/// bound strictly exceeding the lower one.  In the common case both
/// bounds are multiples of a nice tick spacing, a twentieth of the
/// range snapped to `{1, 2, 5, 10} * 10^n`; where that tick or one of
/// the snapped bounds is not representable, the input bound itself is
/// kept.
pub fn dec_nice_range(min: Dec, max: Dec) -> (r: (Dec, Dec))
    requires
        min.wf(), max.wf(),
        min.is_fin(), max.is_fin(),
    ensures
        r.0.wf(),
        r.1.wf(),
        r.0 is Fin,
        r.0.val() <= min.val() && r.0.val() <= max.val(),
        r == spec_nice_range(min, max),
        r.1 is Fin ==> r.1.val() >= min.val() && r.1.val() >= max.val(),
        r.1 is Fin || r.1 == (Dec::Inf { neg: false }),
        r.1 is Inf ==> min.spec_lt(r.1) && max.spec_lt(r.1),
        r.0.spec_lt(r.1),
        // each bound is the input on its side, or the floor (respectively
        // ceiling) multiple of the tick spacing, a twentieth of the
        // doubly snapped range
        ({
            let lov = spec_range_lo(min, max).val();
            let hiv = spec_range_hi(min, max).val();
            let dv = spec_tick20(min, max) / 20;
            &&& (r.0.val() == lov || (dv > 0 && r.0.val() == (lov / dv) * dv))
            &&& (r.1 is Fin ==> (r.1.val() == hiv
                    || (dv > 0 && r.1.val() == -((-hiv / dv) * dv))))
        }),
{
    let (lo, hi0) = if min.lt(&max) { (min, max) } else { (max, min) };
    proof {
        assert(lo == spec_range_lo(min, max));
    }
    let hi: Dec = if lo.eq_val(&hi0) {
        // degenerate input: widen by one unit, or failing that by one
        // unit in the last place
        let one = Dec::Fin { m: 1, e: 0 };
        proof {
            lemma_fin_val_sign(1, 0);
            lemma_pow10_pos(400);
        }
        let h1 = lo.add(&one);
        if h1.is_finite() && h1.gt(&lo) { h1 } else { lo.next_up() }
    } else {
        hi0
    };
    proof {
        assert(hi == spec_range_hi(min, max));
    }
    if !hi.is_finite() {
        return (lo, hi);
    }
    let range = hi.sub(&lo);
    if !range.is_finite() || !range.is_positive() {
        return (lo, hi);
    }
    let r1 = range.nice(false);
    if !r1.is_finite() {
        return (lo, hi);
    }
    let r2 = r1.nice(true);
    let (dm, de): (i64, i32) = match r2 {
        Dec::Fin { m, e } => (m, e),
        _ => { return (lo, hi); },
    };
    if !(dm == 1 || dm == 2 || dm == 5) || de < EXP_MIN + 2 {
        return (lo, hi);
    }
    let d = div20(dm, de);
    proof {
        // the tick's value is exactly a twentieth of the doubly snapped range
        assert(range == crate::decimal::spec_sub(hi, lo));
        assert(r2.val() == spec_tick20(min, max));
        assert((d.val() * 20) / 20 == d.val()) by {
            vstd::arithmetic::div_mod::lemma_div_by_multiple(d.val(), 20);
        }
        assert(d.val() == spec_tick20(min, max) / 20);
    }
    let s = floor_mul(&lo, &d);
    let u = ceil_mul(&hi, &d);
    (s, u)
}

/// Law: the order of the two range arguments is irrelevant: both orders
/// normalize to the same ordered pair and so to the same bounds.  Inputs
/// of equal value are excluded: there the degenerate pair widens from
/// whichever representation the normalization keeps, and two value-equal
/// representations can widen by different units in the last place.
pub proof fn lemma_nice_range_symmetric(min: Dec, max: Dec)
    requires
        min is Fin,
        max is Fin,
        min.val() != max.val(),
    ensures spec_nice_range(min, max) == spec_nice_range(max, min),
{
    assert(spec_range_lo(min, max) == spec_range_lo(max, min));
    assert(spec_range_hi(min, max) == spec_range_hi(max, min));
}

/// Law: `nice` is idempotent under re-decomposition, in either mode —
/// snapping an already nice value changes nothing, so applying the
/// function twice yields the same value as applying it once.
pub proof fn lemma_nice_idempotent(x: int, round: bool)
    requires x != 0,
    ensures spec_nice_val(spec_nice_val(x, round), round) == spec_nice_val(x, round),
{
    let s = iabs(x);
    let d = n_digits(s as nat);
    let p = pow10((d - 1) as nat);
    lemma_n_digits_bounds(s as nat);
    lemma_pow10_pos((d - 1) as nat);
    let nm = nice_mag(s, round);
    let y = spec_nice_val(x, round);
    assert(nm == 1 || nm == 2 || nm == 5 || nm == 10);
    assert(nm * p > 0) by {
        vstd::arithmetic::mul::lemma_mul_strictly_positive(nm, p);
    }
    assert(iabs(y) == nm * p);
    if nm == 10 {
        // ten times the decade is the next decade, whose mantissa is one
        lemma_pow10_adds(1, (d - 1) as nat);
        lemma_pow10_vals();
        assert(10 * p == pow10(d));
        assert(1 * pow10(d) == pow10(d));
        lemma_pow10_adds(1, d);
        lemma_pow10_increases(d, d + 1);
        lemma_n_digits_unique((10 * p) as nat, d + 1);
        assert(n_digits(iabs(y) as nat) == d + 1);
        assert(nice_mag(iabs(y), round) == 1);
    } else {
        // one, two and five keep their decade and snap to themselves
        lemma_n_digits_shift(nm as nat, (d - 1) as nat);
        assert(n_digits((nm * p) as nat) == d);
        assert(nice_mag(iabs(y), round) == nm);
    }
}

} // verus!
