//! A small fixed-point decimal type.
//!
//! A finite value is a 64-bit coefficient together with a base-10
//! exponent: the value of `Fin { m, e }` is `m * 10^e`.  The coefficient
//! carries at most sixteen significant digits and the exponent stays
//! within `[-400, 400]`; not-a-number and signed infinity are explicit
//! variants, so prices that have not arrived yet can be stored as an
//! explicit sentinel.

use vstd::prelude::*;
use vstd::arithmetic::power::{pow, lemma_pow_adds, lemma_pow_positive, lemma_pow_strictly_increases};

verus! {

/// Largest coefficient: sixteen decimal digits.
pub const COEF_MAX: i64 = 9_999_999_999_999_999;

/// Smallest exponent of a well-formed finite value.
pub const EXP_MIN: i32 = -400;

/// Largest exponent of a well-formed finite value.
pub const EXP_MAX: i32 = 400;

/// A decimal number: not-a-number, a signed infinity, or a finite
/// coefficient/exponent pair worth `m * 10^e`.
#[derive(Clone, Copy, Debug)]
pub enum Dec {
    /// The "no data yet" sentinel; also the result of undefined arithmetic.
    Nan,
    /// Signed infinity, the result of decimal overflow.
    Inf { neg: bool },
    /// A finite value `m * 10^e`.
    Fin { m: i64, e: i32 },
}

/// `10^n`, as a mathematical integer.
pub open spec fn pow10(n: nat) -> int {
    pow(10, n)
}

/// The additive inverse over the whole type.
pub open spec fn spec_neg(d: Dec) -> Dec {
    match d {
        Dec::Nan => Dec::Nan,
        Dec::Inf { neg } => Dec::Inf { neg: !neg },
        Dec::Fin { m, e } => Dec::Fin { m: (-m) as i64, e },
    }
}

/// The next representable value up from a finite number: one unit in the
/// last place, the coefficient renormalizing at its cap.
pub open spec fn spec_next_up(d: Dec) -> Dec {
    match d {
        Dec::Fin { m, e } => {
            if m < COEF_MAX {
                Dec::Fin { m: (m + 1) as i64, e }
            } else if e < EXP_MAX {
                Dec::Fin { m: 1_000_000_000_000_000, e: (e + 1) as i32 }
            } else {
                Dec::Inf { neg: false }
            }
        },
        _ => Dec::Inf { neg: false },
    }
}

/// The scaled value of a finite coefficient/exponent pair: `m * 10^(e + 400)`.
/// Scaling by `10^400` keeps every representable value an integer.
pub open spec fn fin_val(m: int, e: int) -> int {
    m * pow10((e + 400) as nat)
}

impl Dec {
    /// Well-formed: a finite value keeps its coefficient and exponent in range.
    pub open spec fn wf(self) -> bool {
        match self {
            Dec::Fin { m, e } => -COEF_MAX <= m <= COEF_MAX && EXP_MIN <= e <= EXP_MAX,
            _ => true,
        }
    }

    pub open spec fn is_fin(self) -> bool {
        self is Fin
    }

    pub open spec fn is_nan_spec(self) -> bool {
        self is Nan
    }

    /// The value of a finite decimal, scaled by `10^400` so that it is an
    /// integer: `Fin { m, e }` maps to `m * 10^(e + 400)`.
    pub open spec fn val(self) -> int
        recommends self.is_fin(),
    {
        match self {
            Dec::Fin { m, e } => fin_val(m as int, e as int),
            _ => 0,
        }
    }

    /// `a < b` with the usual partial-order reading: false as soon as a
    /// not-a-number is involved, and the infinities at the two ends.
    pub open spec fn spec_lt(self, other: Dec) -> bool {
        match (self, other) {
            (Dec::Nan, _) => false,
            (_, Dec::Nan) => false,
            (Dec::Inf { neg: an }, Dec::Inf { neg: bn }) => an && !bn,
            (Dec::Inf { neg: an }, Dec::Fin { .. }) => an,
            (Dec::Fin { .. }, Dec::Inf { neg: bn }) => !bn,
            (Dec::Fin { .. }, Dec::Fin { .. }) => self.val() < other.val(),
        }
    }

    /// Value equality: finite values compare by value, infinities by sign,
    /// and a not-a-number equals nothing, itself included.
    pub open spec fn spec_eq_val(self, other: Dec) -> bool {
        match (self, other) {
            (Dec::Inf { neg: an }, Dec::Inf { neg: bn }) => an == bn,
            (Dec::Fin { .. }, Dec::Fin { .. }) => self.val() == other.val(),
            _ => false,
        }
    }
}

impl Dec {
    /// The finite zero.
    pub fn zero() -> (r: Dec)
        ensures r == (Dec::Fin { m: 0i64, e: 0i32 }), r.wf(), r.val() == 0,
    {
        proof {
            lemma_fin_val_sign(0, 0);
        }
        Dec::Fin { m: 0, e: 0 }
    }

    pub fn is_nan(&self) -> (r: bool)
        ensures r == self.is_nan_spec(),
    {
        match self {
            Dec::Nan => true,
            _ => false,
        }
    }

    pub fn is_infinite(&self) -> (r: bool)
        ensures r == (*self is Inf),
    {
        match self {
            Dec::Inf { .. } => true,
            _ => false,
        }
    }

    pub fn is_finite(&self) -> (r: bool)
        ensures r == self.is_fin(),
    {
        match self {
            Dec::Fin { .. } => true,
            _ => false,
        }
    }

    /// True of a finite zero of either sign representation.
    pub fn is_zero(&self) -> (r: bool)
        ensures r == (self.is_fin() && self.val() == 0),
    {
        proof {
            if let Dec::Fin { m, e } = *self {
                lemma_fin_val_sign(m as int, e as int);
            }
        }
        match self {
            Dec::Fin { m, .. } => *m == 0,
            _ => false,
        }
    }

    /// Strictly below zero; false for a not-a-number.
    pub fn is_negative(&self) -> (r: bool)
        ensures
            r == match *self {
                Dec::Nan => false,
                Dec::Inf { neg } => neg,
                Dec::Fin { .. } => self.val() < 0,
            },
    {
        proof {
            if let Dec::Fin { m, e } = *self {
                lemma_fin_val_sign(m as int, e as int);
            }
        }
        match self {
            Dec::Nan => false,
            Dec::Inf { neg } => *neg,
            Dec::Fin { m, .. } => *m < 0,
        }
    }

    /// Strictly above zero; false for a not-a-number.
    pub fn is_positive(&self) -> (r: bool)
        ensures
            r == match *self {
                Dec::Nan => false,
                Dec::Inf { neg } => !neg,
                Dec::Fin { .. } => self.val() > 0,
            },
    {
        proof {
            if let Dec::Fin { m, e } = *self {
                lemma_fin_val_sign(m as int, e as int);
            }
        }
        match self {
            Dec::Nan => false,
            Dec::Inf { neg } => !*neg,
            Dec::Fin { m, .. } => *m > 0,
        }
    }

    /// The additive inverse.
    pub fn neg(&self) -> (r: Dec)
        requires self.wf(),
        ensures
            r == spec_neg(*self),
            r.wf(),
            r is Nan <==> *self is Nan,
            r.is_fin() <==> self.is_fin(),
            self.is_fin() ==> r.val() == -self.val(),
            self.is_fin() ==> r == (Dec::Fin { m: (-self->Fin_m) as i64, e: self->Fin_e }),
            *self is Inf ==> r == (Dec::Inf { neg: !self->Inf_neg }),
    {
        proof {
            if let Dec::Fin { m, e } = *self {
                lemma_fin_val_sign(m as int, e as int);
            }
        }
        match self {
            Dec::Nan => Dec::Nan,
            Dec::Inf { neg } => Dec::Inf { neg: !*neg },
            Dec::Fin { m, e } => Dec::Fin { m: -*m, e: *e },
        }
    }

    /// The absolute value.
    pub fn abs(&self) -> (r: Dec)
        requires self.wf(),
        ensures
            r.wf(),
            r is Nan <==> *self is Nan,
            r.is_fin() <==> self.is_fin(),
            self.is_fin() ==> r.val() == if self.val() < 0 { -self.val() } else { self.val() },
            *self is Inf ==> r == (Dec::Inf { neg: false }),
    {
        if self.is_negative() { self.neg() } else { *self }
    }

    /// `self < other` in the usual decimal partial order: false on not-a-number.
    pub fn lt(&self, other: &Dec) -> (r: bool)
        requires self.wf(), other.wf(),
        ensures r == self.spec_lt(*other),
    {
        match (self, other) {
            (Dec::Nan, _) => false,
            (_, Dec::Nan) => false,
            (Dec::Inf { neg: an }, Dec::Inf { neg: bn }) => *an && !*bn,
            (Dec::Inf { neg: an }, Dec::Fin { .. }) => *an,
            (Dec::Fin { .. }, Dec::Inf { neg: bn }) => !*bn,
            (Dec::Fin { m: ma, e: ea }, Dec::Fin { m: mb, e: eb }) => {
                cmp_fin(*ma, *ea, *mb, *eb) == -1
            },
        }
    }

    /// `self > other`; false on not-a-number.
    pub fn gt(&self, other: &Dec) -> (r: bool)
        requires self.wf(), other.wf(),
        ensures r == other.spec_lt(*self),
    {
        other.lt(self)
    }

    /// Value equality; false as soon as a not-a-number is involved.
    pub fn eq_val(&self, other: &Dec) -> (r: bool)
        requires self.wf(), other.wf(),
        ensures r == self.spec_eq_val(*other),
    {
        match (self, other) {
            (Dec::Inf { neg: an }, Dec::Inf { neg: bn }) => *an == *bn,
            (Dec::Fin { m: ma, e: ea }, Dec::Fin { m: mb, e: eb }) => {
                cmp_fin(*ma, *ea, *mb, *eb) == 0
            },
            _ => false,
        }
    }
}

/// Truncating subtraction over the whole type, sentinels included.
pub open spec fn spec_sub(a: Dec, b: Dec) -> Dec {
    match (a, b) {
        (Dec::Nan, _) => Dec::Nan,
        (_, Dec::Nan) => Dec::Nan,
        (Dec::Inf { neg: an }, Dec::Inf { neg: bn }) => if an == bn { Dec::Nan } else { a },
        (Dec::Inf { neg: an }, Dec::Fin { .. }) => a,
        (Dec::Fin { .. }, Dec::Inf { neg: bn }) => Dec::Inf { neg: !bn },
        (Dec::Fin { m: ma, e: ea }, Dec::Fin { m: mb, e: eb }) =>
            spec_sub_fin(ma as int, ea as int, mb as int, eb as int),
    }
}

impl Dec {
    /// Truncating subtraction: exact whenever the exact difference fits a
    /// sixteen-digit coefficient at the smaller exponent, otherwise the
    /// closest representable value toward zero, up to one kept unit.
    pub fn sub(&self, other: &Dec) -> (r: Dec)
        requires self.wf(), other.wf(),
        ensures
            r == spec_sub(*self, *other),
            r.wf(),
            (*self is Nan || *other is Nan) ==> r is Nan,
            (*self is Inf && *other is Inf) ==> if self->Inf_neg == other->Inf_neg { r is Nan } else { r == *self },
            (*self is Inf && other.is_fin()) ==> r == *self,
            (self.is_fin() && *other is Inf) ==> r == (Dec::Inf { neg: !other->Inf_neg }),
            (self.is_fin() && other.is_fin()) ==> sub_fin_post(
                self->Fin_m as int, self->Fin_e as int,
                other->Fin_m as int, other->Fin_e as int, r),
    {
        match (self, other) {
            (Dec::Nan, _) => Dec::Nan,
            (_, Dec::Nan) => Dec::Nan,
            (Dec::Inf { neg: an }, Dec::Inf { neg: bn }) => {
                if *an == *bn { Dec::Nan } else { Dec::Inf { neg: *an } }
            },
            (Dec::Inf { neg: an }, Dec::Fin { .. }) => Dec::Inf { neg: *an },
            (Dec::Fin { .. }, Dec::Inf { neg: bn }) => Dec::Inf { neg: !*bn },
            (Dec::Fin { m: ma, e: ea }, Dec::Fin { m: mb, e: eb }) => sub_fin(*ma, *ea, *mb, *eb),
        }
    }

    /// Truncating addition, as subtraction of the negated argument.
    pub fn add(&self, other: &Dec) -> (r: Dec)
        requires self.wf(), other.wf(),
        ensures
            r == spec_sub(*self, spec_neg(*other)),
            r.wf(),
            (*self is Nan || *other is Nan) ==> r is Nan,
            (self.is_fin() && other.is_fin()) ==> sub_fin_post(
                self->Fin_m as int, self->Fin_e as int,
                -(other->Fin_m as int), other->Fin_e as int, r),
    {
        self.sub(&other.neg())
    }

    /// The next representable value up: one unit in the last place.
    pub fn next_up(&self) -> (r: Dec)
        requires self.wf(), self.is_fin(),
        ensures
            r == spec_next_up(*self),
            r.wf(),
            r is Fin || r == (Dec::Inf { neg: false }),
            r is Fin ==> r.val() == self.val() + pow10((self->Fin_e + 400) as nat),
            r is Fin ==> self.spec_lt(r),
    {
        proof {
            lemma_pow10_pos((self->Fin_e + 400) as nat);
        }
        match self {
            Dec::Fin { m, e } => {
                if *m < COEF_MAX {
                    proof {
                        assert((*m + 1) * pow10((*e + 400) as nat)
                            == (*m as int) * pow10((*e + 400) as nat) + pow10((*e + 400) as nat)) by {
                            vstd::arithmetic::mul::lemma_mul_is_distributive_add_other_way(
                                pow10((*e + 400) as nat), *m as int, 1);
                        }
                    }
                    Dec::Fin { m: *m + 1, e: *e }
                } else if *e < EXP_MAX {
                    proof {
                        let p = pow10((*e + 400) as nat);
                        lemma_pow10_vals();
                        lemma_pow10_adds(1, (*e + 400) as nat);
                        assert((COEF_MAX + 1) * p == 1_000_000_000_000_000int * (10 * p)) by {
                            vstd::arithmetic::mul::lemma_mul_is_associative(1_000_000_000_000_000int, 10, p);
                        }
                        assert((COEF_MAX + 1) * p == COEF_MAX * p + p) by {
                            vstd::arithmetic::mul::lemma_mul_is_distributive_add_other_way(p, COEF_MAX as int, 1);
                        }
                        assert(pow10((*e + 1 + 400) as nat) == 10 * p);
                    }
                    Dec::Fin { m: 1_000_000_000_000_000, e: *e + 1 }
                } else {
                    Dec::Inf { neg: false }
                }
            },
            _ => Dec::Inf { neg: false },
        }
    }
}

/// What division promises on two well-formed finite decimals with a
/// nonzero divisor: a sixteen-digit quotient truncated toward zero,
/// bracketed between the exact ratio and the exact ratio plus one unit in
/// the quotient's last place.
pub open spec fn div_fin_post(ma: int, ea: int, mb: int, eb: int, r: Dec) -> bool {
    let va = fin_val(ma, ea);
    let vb = fin_val(mb, eb);
    &&& r.wf()
    &&& (r is Fin || r is Inf)
    &&& (ma == 0 ==> r is Fin && r.val() == 0)
    &&& (r is Fin && r.val() != 0 ==> ((r.val() > 0) <==> ((va > 0) == (vb > 0))))
    &&& (r is Fin && r.val() != 0 ==> iabs(r.val()) * iabs(vb) <= iabs(va) * pow10(400)
            && iabs(va) * pow10(400) < (iabs(r.val()) + pow10((r->Fin_e + 400) as nat)) * iabs(vb))
    &&& (r is Fin && r.val() != 0 ==> pow10(15) <= iabs(r->Fin_m as int))
    &&& (-150 <= ea <= 150 && -150 <= eb <= 150 && ma != 0
            ==> r is Fin && r.val() != 0 && -331 <= r->Fin_e <= 300)
}

/// The expansion of a positive coefficient to exactly sixteen digits:
/// the expanded value and the number of places shifted.
pub open spec fn spec_norm16(p: nat) -> (nat, nat)
    decreases (if p < pow10(15) { pow10(15) - p } else { 0int }),
{
    if p == 0 {
        (0, 0)
    } else if p >= pow10(15) {
        (p, 0)
    } else {
        let r = spec_norm16((p * 10) as nat);
        (r.0, (r.1 + 1) as nat)
    }
}

/// Expands a positive coefficient to exactly sixteen digits.
fn norm16(p0: u64) -> (r: (u64, u32))
    requires 1 <= p0 <= COEF_MAX as u64,
    ensures
        r.0 as nat == spec_norm16(p0 as nat).0,
        r.1 as nat == spec_norm16(p0 as nat).1,
        r.0 as int == (p0 as int) * pow10(r.1 as nat),
        pow10(15) <= r.0 as int,
        (r.0 as int) < pow10(16),
        r.1 <= 15,
{
    proof {
        vstd::arithmetic::power::lemma_pow0(10);
        lemma_pow10_vals();
    }
    let mut p: u64 = p0;
    let mut k: u32 = 0;
    while p < 1_000_000_000_000_000
        invariant
            spec_norm16(p0 as nat) == (spec_norm16(p as nat).0, (spec_norm16(p as nat).1 + k) as nat),
            p as int == (p0 as int) * pow10(k as nat),
            1 <= p < pow10(16),
            k <= 15,
        decreases pow10(16) - p,
    {
        proof {
            lemma_pow10_vals();
            lemma_pow10_adds(k as nat, 1);
            assert((p0 as int) * (pow10(k as nat) * 10) == ((p0 as int) * pow10(k as nat)) * 10) by {
                vstd::arithmetic::mul::lemma_mul_is_associative(p0 as int, pow10(k as nat), 10);
            }
            assert(pow10(k as nat) <= p as int) by {
                lemma_pow10_pos(k as nat);
                vstd::arithmetic::mul::lemma_mul_inequality(1, p0 as int, pow10(k as nat));
                vstd::arithmetic::mul::lemma_mul_is_commutative(p0 as int, pow10(k as nat));
                vstd::arithmetic::mul::lemma_mul_is_commutative(1int, pow10(k as nat));
            }
            if k == 15 {
                assert(false);
            }
        }
        p = p * 10;
        k = k + 1;
    }
    proof {
        lemma_pow10_vals();
    }
    (p, k)
}

/// The division algorithm as a function: both coefficients expanded to
/// sixteen digits, the quotient taken at seventeen digits and cut back
/// to sixteen, the exponent bookkeeping clamping to zero or infinity at
/// the ends of the representable range.
pub open spec fn spec_div_fin(ma: int, ea: int, mb: int, eb: int) -> Dec {
    if ma == 0 {
        Dec::Fin { m: 0, e: 0 }
    } else {
        let neg = (ma < 0) != (mb < 0);
        let na = spec_norm16(iabs(ma) as nat);
        let nb = spec_norm16(iabs(mb) as nat);
        let q0 = (na.0 * pow10(16)) / (nb.0 as int);
        let q = if q0 >= pow10(16) { q0 / 10 } else { q0 };
        let bump: int = if q0 >= pow10(16) { 1 } else { 0 };
        let er = (ea - na.1) - (eb - nb.1) - 16 + bump;
        if er > EXP_MAX as int {
            Dec::Inf { neg }
        } else if er < EXP_MIN as int {
            Dec::Fin { m: 0, e: 0 }
        } else {
            Dec::Fin { m: if neg { (-q) as i64 } else { q as i64 }, e: er as i32 }
        }
    }
}

/// Divides two well-formed finite decimals, truncating the quotient to
/// sixteen significant digits toward zero; a quotient too large for the
/// exponent range overflows to infinity, one too small collapses to zero.
#[verifier::rlimit(60)]
fn div_fin(ma: i64, ea: i32, mb: i64, eb: i32) -> (r: Dec)
    requires
        -COEF_MAX <= ma <= COEF_MAX,
        -COEF_MAX <= mb <= COEF_MAX,
        mb != 0,
        EXP_MIN <= ea <= EXP_MAX,
        EXP_MIN <= eb <= EXP_MAX,
    ensures
        div_fin_post(ma as int, ea as int, mb as int, eb as int, r),
        r == spec_div_fin(ma as int, ea as int, mb as int, eb as int),
{
    proof {
        lemma_fin_val_sign(ma as int, ea as int);
        lemma_fin_val_sign(mb as int, eb as int);
        lemma_pow10_pos((ea + 400) as nat);
        lemma_pow10_pos((eb + 400) as nat);
        lemma_pow10_vals();
        lemma_pow10_38();
    }
    if ma == 0 {
        proof {
            lemma_fin_val_sign(0, 0);
        }
        return Dec::Fin { m: 0, e: 0 };
    }
    let neg: bool = (ma < 0) != (mb < 0);
    let (pa, ka) = norm16(if ma < 0 { (-ma) as u64 } else { ma as u64 });
    let (pb, kb) = norm16(if mb < 0 { (-mb) as u64 } else { mb as u64 });
    proof {
        lemma_pow10_adds(16, 16);
        lemma_pow10_increases(32, 38);
        assert((pa as int) * pow10(16) < pow10(16) * pow10(16)) by {
            vstd::arithmetic::mul::lemma_mul_strict_inequality(pa as int, pow10(16), pow10(16));
        }
        assert((pa as int) * pow10(16) >= pow10(15) * pow10(16)) by {
            vstd::arithmetic::mul::lemma_mul_inequality(pow10(15), pa as int, pow10(16));
        }
        lemma_pow10_adds(15, 16);
    }
    let num: u128 = (pa as u128) * 10_000_000_000_000_000;
    let q0: u128 = num / (pb as u128);
    proof {
        vstd::arithmetic::div_mod::lemma_fundamental_div_mod(num as int, pb as int);
        assert((q0 as int) * (pb as int) <= num as int) by {
            vstd::arithmetic::mul::lemma_mul_is_commutative(q0 as int, pb as int);
        }
        assert((num as int) < ((q0 as int) + 1) * (pb as int)) by {
            vstd::arithmetic::mul::lemma_mul_is_commutative(q0 as int, pb as int);
            vstd::arithmetic::mul::lemma_mul_is_distributive_add_other_way(pb as int, q0 as int, 1);
        }
        // the raw quotient has sixteen or seventeen digits
        assert((q0 as int) >= pow10(15)) by {
            if (q0 as int) < pow10(15) {
                assert(((q0 as int) + 1) * (pb as int) <= pow10(15) * pow10(16)) by {
                    vstd::arithmetic::mul::lemma_mul_upper_bound((q0 as int) + 1, pow10(15), pb as int, pow10(16));
                }
            }
        }
        assert((q0 as int) < pow10(17)) by {
            lemma_pow10_adds(17, 15);
            lemma_pow10_adds(16, 16);
            lemma_pow10_increases(32, 32 + 1);
            if (q0 as int) >= pow10(17) {
                assert(pow10(17) * pow10(15) <= (q0 as int) * (pb as int)) by {
                    vstd::arithmetic::mul::lemma_mul_inequality(pow10(17), q0 as int, pow10(15));
                    vstd::arithmetic::mul::lemma_mul_inequality(pow10(15), pb as int, q0 as int);
                    vstd::arithmetic::mul::lemma_mul_is_commutative(q0 as int, pow10(15));
                    vstd::arithmetic::mul::lemma_mul_is_commutative(q0 as int, pb as int);
                }
            }
        }
    }
    let (q, bump): (u128, u32) = if q0 >= 10_000_000_000_000_000 {
        proof {
            vstd::arithmetic::div_mod::lemma_fundamental_div_mod(q0 as int, 10);
        }
        (q0 / 10, 1)
    } else {
        (q0, 0)
    };
    proof {
        // the bracket survives the final digit cut
        let qi = q as int;
        let b = pow10(bump as nat);
        assert(b == if bump == 1 { 10int } else { 1int });
        assert((qi * b) * (pb as int) <= num as int) by {
            if bump == 1 {
                assert(qi * 10 <= q0 as int);
                vstd::arithmetic::mul::lemma_mul_inequality(qi * 10, q0 as int, pb as int);
            }
        }
        assert((num as int) < ((qi + 1) * b) * (pb as int)) by {
            if bump == 1 {
                assert((qi + 1) * 10 == qi * 10 + 10) by {
                    vstd::arithmetic::mul::lemma_mul_is_distributive_add_other_way(10, qi, 1);
                }
                assert(q0 as int + 1 <= (qi + 1) * 10);
                vstd::arithmetic::mul::lemma_mul_inequality((q0 as int) + 1, (qi + 1) * 10, pb as int);
                assert(((qi + 1) * b) * (pb as int) == ((qi + 1) * 10) * (pb as int));
            } else {
                assert((qi + 1) * b == (q0 as int) + 1);
            }
        }
        assert(pow10(15) <= qi < pow10(16)) by {
            lemma_pow10_adds(16, 1);
            lemma_pow10_adds(15, 1);
        }
    }
    let er: i64 = (ea as i64 - ka as i64) - (eb as i64 - kb as i64) - 16 + bump as i64;
    if er > EXP_MAX as i64 {
        proof {
            assert(!(-150 <= ea <= 150 && -150 <= eb <= 150));
        }
        return Dec::Inf { neg };
    }
    if er < EXP_MIN as i64 {
        proof {
            lemma_fin_val_sign(0, 0);
            assert(!(-150 <= ea <= 150 && -150 <= eb <= 150));
        }
        return Dec::Fin { m: 0, e: 0 };
    }
    let rm: i64 = if neg { -(q as i64) } else { q as i64 };
    let rr = Dec::Fin { m: rm, e: er as i32 };
    proof {
        let qi = q as int;
        let b = pow10(bump as nat);
        let va = fin_val(ma as int, ea as int);
        let vb = fin_val(mb as int, eb as int);
        let mav = iabs(ma as int);
        let mbv = iabs(mb as int);
        let p1 = pow10((er + 400) as nat);
        let p2 = pow10((eb + 400) as nat);
        let t: nat = (ea - ka + 784) as nat;
        lemma_fin_val_sign(rm as int, er as int);
        lemma_fin_val_sign(qi, er as int);
        lemma_pow10_pos((er + 400) as nat);
        lemma_pow10_pos(t);
        assert(iabs(rr.val()) == qi * p1) by {
            vstd::arithmetic::mul::lemma_mul_unary_negation(qi, p1);
            vstd::arithmetic::mul::lemma_mul_strictly_positive(qi, p1);
        }
        assert(iabs(va) == mav * pow10((ea + 400) as nat)) by {
            vstd::arithmetic::mul::lemma_mul_unary_negation(ma as int, pow10((ea + 400) as nat));
        }
        assert(iabs(vb) == mbv * p2) by {
            vstd::arithmetic::mul::lemma_mul_unary_negation(mb as int, p2);
        }
        // |va| * 10^400 == num * 10^t
        assert(iabs(va) * pow10(400) == (num as int) * pow10(t)) by {
            lemma_pow10_adds((ea + 400) as nat, 400);
            lemma_pow10_adds(ka as nat, 16 + t);
            lemma_pow10_adds(16, t);
            assert(num as int == (pa as int) * pow10(16));
            assert(pa as int == mav * pow10(ka as nat));
            assert((mav * pow10((ea + 800) as nat)) == ((mav * pow10(ka as nat)) * pow10(16)) * pow10(t))
                by (nonlinear_arith)
                requires
                    pow10((ea + 800) as nat) == pow10(ka as nat) * (pow10(16) * pow10(t)),
            {}
            assert(mav * (pow10((ea + 400) as nat) * pow10(400)) == (mav * pow10((ea + 400) as nat)) * pow10(400))
                by (nonlinear_arith)
            {}
            assert(((mav * pow10(ka as nat)) * pow10(16)) * pow10(t) == (num as int) * pow10(t));
        }
        // |r| * |vb| == (q * 10^bump * pb) * 10^t, and one quotient up likewise
        assert((er + 400) + (eb + 400) == bump + kb + t);
        assert(iabs(rr.val()) * iabs(vb) == ((qi * b) * (pb as int)) * pow10(t)) by {
            lemma_pow10_adds((er + 400) as nat, (eb + 400) as nat);
            lemma_pow10_adds(bump as nat, (kb + t) as nat);
            lemma_pow10_adds(kb as nat, t);
            assert(pb as int == mbv * pow10(kb as nat));
            assert((qi * p1) * (mbv * p2) == (qi * mbv) * (p1 * p2)) by (nonlinear_arith) {}
            assert(((qi * b) * ((mbv * pow10(kb as nat)))) * pow10(t)
                == (qi * mbv) * (b * (pow10(kb as nat) * pow10(t)))) by (nonlinear_arith) {}
            assert(p1 * p2 == b * (pow10(kb as nat) * pow10(t)));
        }
        assert((iabs(rr.val()) + p1) * iabs(vb) == (((qi + 1) * b) * (pb as int)) * pow10(t)) by {
            lemma_pow10_adds((er + 400) as nat, (eb + 400) as nat);
            lemma_pow10_adds(bump as nat, (kb + t) as nat);
            lemma_pow10_adds(kb as nat, t);
            assert(pb as int == mbv * pow10(kb as nat));
            assert((qi * p1 + p1) * (mbv * p2) == ((qi + 1) * mbv) * (p1 * p2)) by (nonlinear_arith) {}
            assert((((qi + 1) * b) * ((mbv * pow10(kb as nat)))) * pow10(t)
                == ((qi + 1) * mbv) * (b * (pow10(kb as nat) * pow10(t)))) by (nonlinear_arith) {}
            assert(p1 * p2 == b * (pow10(kb as nat) * pow10(t)));
        }
        // transfer the integer bracket through the positive factor 10^t
        assert(((qi * b) * (pb as int)) * pow10(t) <= (num as int) * pow10(t)) by {
            vstd::arithmetic::mul::lemma_mul_inequality((qi * b) * (pb as int), num as int, pow10(t));
        }
        assert((num as int) * pow10(t) < (((qi + 1) * b) * (pb as int)) * pow10(t)) by {
            vstd::arithmetic::mul::lemma_mul_strict_inequality(num as int, ((qi + 1) * b) * (pb as int), pow10(t));
        }
    }
    rr
}

/// What multiplication promises on two well-formed finite decimals: zero
/// and sign behave exactly; within the comfortable exponent band the
/// product is finite and bracketed between the exact product and the
/// exact product plus one unit in the last place.
pub open spec fn mul_fin_post(ma: int, ea: int, mb: int, eb: int, r: Dec) -> bool {
    let x = fin_val(ma, ea) * fin_val(mb, eb);
    &&& r.wf()
    &&& (r is Fin || r is Inf)
    &&& ((ma == 0 || mb == 0) ==> r is Fin && r.val() == 0)
    &&& (r is Fin && r.val() != 0 ==> ((r.val() > 0) <==> ((ma > 0) == (mb > 0))))
    &&& (-400 <= ea + eb <= 360 ==> r is Fin
            && iabs(r.val()) * pow10(400) <= iabs(x)
            && iabs(x) < (iabs(r.val()) + pow10((r->Fin_e + 400) as nat)) * pow10(400)
            && (ma != 0 && mb != 0 ==> r.val() != 0))
}

/// The multiplication algorithm as a function: the exact coefficient
/// product truncated to sixteen digits, the exponent bookkeeping
/// clamping to zero or infinity at the ends of the representable range.
pub open spec fn spec_mul_fin(ma: int, ea: int, mb: int, eb: int) -> Dec {
    if ma == 0 || mb == 0 {
        Dec::Fin { m: 0, e: 0 }
    } else {
        let neg = (ma < 0) != (mb < 0);
        let red = spec_reduce((iabs(ma) * iabs(mb)) as nat);
        let er = ea + eb + red.1;
        if er > EXP_MAX as int {
            Dec::Inf { neg }
        } else if er < EXP_MIN as int {
            Dec::Fin { m: 0, e: 0 }
        } else {
            Dec::Fin {
                m: if neg { (-(red.0 as int)) as i64 } else { red.0 as i64 },
                e: er as i32,
            }
        }
    }
}

/// Truncating multiplication over the whole type, sentinels included:
/// zero times an infinity is undefined, infinities keep the sign rule.
pub open spec fn spec_mul(a: Dec, b: Dec) -> Dec {
    match (a, b) {
        (Dec::Nan, _) => Dec::Nan,
        (_, Dec::Nan) => Dec::Nan,
        (Dec::Inf { neg: an }, Dec::Inf { neg: bn }) => Dec::Inf { neg: an != bn },
        (Dec::Inf { neg: an }, Dec::Fin { m: mb, .. }) =>
            if mb == 0 { Dec::Nan } else { Dec::Inf { neg: an != (mb < 0) } },
        (Dec::Fin { m: ma, .. }, Dec::Inf { neg: bn }) =>
            if ma == 0 { Dec::Nan } else { Dec::Inf { neg: bn != (ma < 0) } },
        (Dec::Fin { m: ma, e: ea }, Dec::Fin { m: mb, e: eb }) =>
            spec_mul_fin(ma as int, ea as int, mb as int, eb as int),
    }
}

/// Multiplies two well-formed finite decimals, truncating the product to
/// sixteen significant digits toward zero.
fn mul_fin(ma: i64, ea: i32, mb: i64, eb: i32) -> (r: Dec)
    requires
        -COEF_MAX <= ma <= COEF_MAX,
        -COEF_MAX <= mb <= COEF_MAX,
        EXP_MIN <= ea <= EXP_MAX,
        EXP_MIN <= eb <= EXP_MAX,
    ensures
        mul_fin_post(ma as int, ea as int, mb as int, eb as int, r),
        r == spec_mul_fin(ma as int, ea as int, mb as int, eb as int),
{
    proof {
        lemma_fin_val_sign(ma as int, ea as int);
        lemma_fin_val_sign(mb as int, eb as int);
        lemma_fin_val_sign(0, 0);
        lemma_pow10_vals();
        lemma_pow10_38();
        lemma_pow10_pos((ea + 400) as nat);
        lemma_pow10_pos((eb + 400) as nat);
    }
    if ma == 0 || mb == 0 {
        proof {
            if ma == 0 {
                vstd::arithmetic::mul::lemma_mul_by_zero_is_zero(fin_val(mb as int, eb as int));
            } else {
                vstd::arithmetic::mul::lemma_mul_by_zero_is_zero(fin_val(ma as int, ea as int));
            }
            lemma_pow10_pos(400);
            assert(pow10(400) * pow10(400) > 0) by {
                vstd::arithmetic::mul::lemma_mul_strictly_positive(pow10(400), pow10(400));
            }
            assert(fin_val(0, 0) == 0) by {
                lemma_fin_val_sign(0, 0);
            }
        }
        return Dec::Fin { m: 0, e: 0 };
    }
    let neg: bool = (ma < 0) != (mb < 0);
    let pa: u128 = if ma < 0 { (-ma) as u128 } else { ma as u128 };
    let pb: u128 = if mb < 0 { (-mb) as u128 } else { mb as u128 };
    proof {
        lemma_pow10_adds(16, 16);
        lemma_pow10_increases(32, 38);
        assert((pa as int) * (pb as int) < pow10(16) * pow10(16)) by {
            vstd::arithmetic::mul::lemma_mul_upper_bound(pa as int, COEF_MAX as int, pb as int, COEF_MAX as int);
            vstd::arithmetic::mul::lemma_mul_strict_inequality(COEF_MAX as int, pow10(16), COEF_MAX as int);
            vstd::arithmetic::mul::lemma_mul_strict_inequality(COEF_MAX as int, pow10(16), pow10(16));
            vstd::arithmetic::mul::lemma_mul_is_commutative(COEF_MAX as int, pow10(16));
        }
        lemma_pow10_increases(32, 34);
        assert((pa as int) * (pb as int) >= 1) by {
            vstd::arithmetic::mul::lemma_mul_strictly_positive(pa as int, pb as int);
        }
    }
    let mag0: u128 = pa * pb;
    let (mag, j) = reduce_mag(mag0);
    let er: i64 = ea as i64 + eb as i64 + j as i64;
    if er > EXP_MAX as i64 || er < EXP_MIN as i64 {
        proof {
            assert(!(-400 <= ea + eb && ea + eb <= 360));
        }
        if er > EXP_MAX as i64 {
            return Dec::Inf { neg };
        }
        return Dec::Fin { m: 0, e: 0 };
    }
    let rm: i64 = if neg { -(mag as i64) } else { mag as i64 };
    let rr = Dec::Fin { m: rm, e: er as i32 };
    proof {
        let x = fin_val(ma as int, ea as int) * fin_val(mb as int, eb as int);
        let e2 = (ea + eb + 800) as nat;
        lemma_pow10_pos(e2);
        lemma_pow10_pos((er + 400) as nat);
        lemma_pow10_pos(j as nat);
        lemma_pow10_pos(400);
        lemma_fin_val_sign(rm as int, er as int);
        lemma_fin_val_sign(mag as int, er as int);
        // |x| == mag0 * 10^(ea + eb + 800)
        assert(iabs(x) == (mag0 as int) * pow10(e2)) by {
            lemma_pow10_adds((ea + 400) as nat, (eb + 400) as nat);
            assert(((ma as int) * pow10((ea + 400) as nat)) * ((mb as int) * pow10((eb + 400) as nat))
                == ((ma as int) * (mb as int)) * pow10(e2)) by (nonlinear_arith)
                requires pow10((ea + 400) as nat) * pow10((eb + 400) as nat) == pow10(e2),
            {}
            vstd::arithmetic::mul::lemma_mul_unary_negation(ma as int, mb as int);
            vstd::arithmetic::mul::lemma_mul_unary_negation(mb as int, ma as int);
            vstd::arithmetic::mul::lemma_mul_is_commutative(ma as int, mb as int);
            assert(iabs((ma as int) * (mb as int)) == mag0 as int) by {
                vstd::arithmetic::mul::lemma_mul_strictly_positive(pa as int, pb as int);
                vstd::arithmetic::mul::lemma_mul_unary_negation(pa as int, pb as int);
                vstd::arithmetic::mul::lemma_mul_unary_negation(-(pa as int), pb as int);
            }
            assert(iabs(((ma as int) * (mb as int)) * pow10(e2)) == iabs((ma as int) * (mb as int)) * pow10(e2)) by {
                vstd::arithmetic::mul::lemma_mul_unary_negation((ma as int) * (mb as int), pow10(e2));
            }
        }
        // the bracket of the reduced magnitude transfers to the values
        assert(iabs(rr.val()) == (mag as int) * pow10((er + 400) as nat)) by {
            vstd::arithmetic::mul::lemma_mul_unary_negation(mag as int, pow10((er + 400) as nat));
            vstd::arithmetic::mul::lemma_mul_nonnegative(mag as int, pow10((er + 400) as nat));
        }
        assert((er + 400) as nat + 400 == j as nat + e2);
        lemma_pow10_adds((er + 400) as nat, 400);
        lemma_pow10_adds(j as nat, e2);
        assert(iabs(rr.val()) * pow10(400) == ((mag as int) * pow10(j as nat)) * pow10(e2)) by {
            assert(((mag as int) * pow10((er + 400) as nat)) * pow10(400)
                == (mag as int) * (pow10((er + 400) as nat) * pow10(400))) by (nonlinear_arith) {}
            assert((mag as int) * (pow10(j as nat) * pow10(e2))
                == ((mag as int) * pow10(j as nat)) * pow10(e2)) by (nonlinear_arith) {}
        }
        assert(((mag as int) * pow10(j as nat)) * pow10(e2) <= (mag0 as int) * pow10(e2)) by {
            vstd::arithmetic::mul::lemma_mul_inequality((mag as int) * pow10(j as nat), mag0 as int, pow10(e2));
        }
        assert((iabs(rr.val()) + pow10((er + 400) as nat)) * pow10(400)
            == (((mag as int) + 1) * pow10(j as nat)) * pow10(e2)) by {
            assert((((mag as int) * pow10((er + 400) as nat)) + pow10((er + 400) as nat)) * pow10(400)
                == ((mag as int) + 1) * (pow10((er + 400) as nat) * pow10(400))) by (nonlinear_arith) {}
            assert(((mag as int) + 1) * (pow10(j as nat) * pow10(e2))
                == (((mag as int) + 1) * pow10(j as nat)) * pow10(e2)) by (nonlinear_arith) {}
        }
        assert((mag0 as int) * pow10(e2) < (((mag as int) + 1) * pow10(j as nat)) * pow10(e2)) by {
            vstd::arithmetic::mul::lemma_mul_strict_inequality(mag0 as int, ((mag as int) + 1) * pow10(j as nat), pow10(e2));
        }
    }
    rr
}

impl Dec {
    /// Truncating multiplication with the usual conventions: a
    /// not-a-number operand or zero times infinity gives the sentinel,
    /// infinities keep the sign rule.
    pub fn mul(&self, other: &Dec) -> (r: Dec)
        requires self.wf(), other.wf(),
        ensures
            r == spec_mul(*self, *other),
            r.wf(),
            (*self is Nan || *other is Nan) ==> r is Nan,
            (self.is_fin() && other.is_fin()) ==> mul_fin_post(
                self->Fin_m as int, self->Fin_e as int,
                other->Fin_m as int, other->Fin_e as int, r),
    {
        proof {
            if let Dec::Fin { m, e } = *self {
                lemma_fin_val_sign(m as int, e as int);
            }
            if let Dec::Fin { m, e } = *other {
                lemma_fin_val_sign(m as int, e as int);
            }
        }
        match (self, other) {
            (Dec::Nan, _) => Dec::Nan,
            (_, Dec::Nan) => Dec::Nan,
            (Dec::Inf { neg: an }, Dec::Inf { neg: bn }) => Dec::Inf { neg: *an != *bn },
            (Dec::Inf { neg: an }, Dec::Fin { m: mb, .. }) => {
                if *mb == 0 { Dec::Nan } else { Dec::Inf { neg: *an != (*mb < 0) } }
            },
            (Dec::Fin { m: ma, .. }, Dec::Inf { neg: bn }) => {
                if *ma == 0 { Dec::Nan } else { Dec::Inf { neg: *bn != (*ma < 0) } }
            },
            (Dec::Fin { m: ma, e: ea }, Dec::Fin { m: mb, e: eb }) => mul_fin(*ma, *ea, *mb, *eb),
        }
    }
}

/// Truncating division over the whole type: a not-a-number operand or
/// zero over zero gives the sentinel, division by zero a signed
/// infinity, and a finite value over an infinity collapses to zero.
pub open spec fn spec_div(a: Dec, b: Dec) -> Dec {
    match (a, b) {
        (Dec::Nan, _) => Dec::Nan,
        (_, Dec::Nan) => Dec::Nan,
        (Dec::Inf { .. }, Dec::Inf { .. }) => Dec::Nan,
        (Dec::Inf { neg: an }, Dec::Fin { m: mb, .. }) => Dec::Inf { neg: an != (mb < 0) },
        (Dec::Fin { .. }, Dec::Inf { .. }) => Dec::Fin { m: 0, e: 0 },
        (Dec::Fin { m: ma, e: ea }, Dec::Fin { m: mb, e: eb }) => {
            if mb == 0 {
                if ma == 0 { Dec::Nan } else { Dec::Inf { neg: (ma < 0) != (mb < 0) } }
            } else {
                spec_div_fin(ma as int, ea as int, mb as int, eb as int)
            }
        },
    }
}

/// One hundred times a value: the exponent moves up by two, clamping to
/// infinity at the top of the range (zero keeps its place).
pub open spec fn spec_mul100(d: Dec) -> Dec {
    match d {
        Dec::Nan => Dec::Nan,
        Dec::Inf { neg } => Dec::Inf { neg },
        Dec::Fin { m, e } => {
            if e <= EXP_MAX - 2 {
                Dec::Fin { m, e: (e + 2) as i32 }
            } else if m == 0 {
                Dec::Fin { m: 0, e: 0 }
            } else {
                Dec::Inf { neg: m < 0 }
            }
        },
    }
}

impl Dec {
    /// Truncating division with the conventions of the decimal arithmetic
    /// the feed values use: a not-a-number operand or zero over zero gives
    /// the sentinel, division by zero gives a signed infinity, and a
    /// finite value over an infinity collapses to zero.
    pub fn div(&self, other: &Dec) -> (r: Dec)
        requires self.wf(), other.wf(),
        ensures
            r == spec_div(*self, *other),
            r.wf(),
            (*self is Nan || *other is Nan) ==> r is Nan,
            (*self is Inf && *other is Inf) ==> r is Nan,
            (*self is Inf && other.is_fin()) ==> r is Inf,
            (self.is_fin() && *other is Inf) ==> r is Fin && r.val() == 0,
            (self.is_fin() && other.is_fin() && other.val() == 0 && self.val() == 0) ==> r is Nan,
            (self.is_fin() && other.is_fin() && other.val() == 0 && self.val() != 0) ==> r is Inf,
            (self.is_fin() && other.is_fin() && other.val() != 0) ==> div_fin_post(
                self->Fin_m as int, self->Fin_e as int,
                other->Fin_m as int, other->Fin_e as int, r),
    {
        proof {
            if let Dec::Fin { m, e } = *self {
                lemma_fin_val_sign(m as int, e as int);
            }
            if let Dec::Fin { m, e } = *other {
                lemma_fin_val_sign(m as int, e as int);
            }
            lemma_fin_val_sign(0, 0);
        }
        match (self, other) {
            (Dec::Nan, _) => Dec::Nan,
            (_, Dec::Nan) => Dec::Nan,
            (Dec::Inf { .. }, Dec::Inf { .. }) => Dec::Nan,
            (Dec::Inf { neg: an }, Dec::Fin { m: mb, .. }) => Dec::Inf { neg: *an != (*mb < 0) },
            (Dec::Fin { .. }, Dec::Inf { .. }) => Dec::Fin { m: 0, e: 0 },
            (Dec::Fin { m: ma, e: ea }, Dec::Fin { m: mb, e: eb }) => {
                if *mb == 0 {
                    if *ma == 0 { Dec::Nan } else { Dec::Inf { neg: (*ma < 0) != (*mb < 0) } }
                } else {
                    div_fin(*ma, *ea, *mb, *eb)
                }
            },
        }
    }

    /// One hundred times the value: the exponent moves up by two.
    pub fn mul100(&self) -> (r: Dec)
        requires self.wf(),
        ensures
            r == spec_mul100(*self),
            r.wf(),
            *self is Nan ==> r is Nan,
            *self is Inf ==> r == *self,
            self.is_fin() && self->Fin_e <= EXP_MAX - 2 ==> r.is_fin() && r.val() == 100 * self.val(),
            self.is_fin() && self->Fin_e > EXP_MAX - 2 && self.val() != 0
                ==> r == (Dec::Inf { neg: self.val() < 0 }),
            self.is_fin() && self.val() == 0 ==> r.is_fin() && r.val() == 0,
            r.is_fin() ==> r.val() == 100 * self.val(),
    {
        proof {
            if let Dec::Fin { m, e } = *self {
                lemma_fin_val_sign(m as int, e as int);
                lemma_pow10_vals();
                if e + 2 <= EXP_MAX {
                    lemma_pow10_adds(2, (e + 400) as nat);
                    assert((m as int) * (100 * pow10((e + 400) as nat))
                        == 100 * ((m as int) * pow10((e + 400) as nat))) by {
                        vstd::arithmetic::mul::lemma_mul_is_associative(m as int, 100, pow10((e + 400) as nat));
                        vstd::arithmetic::mul::lemma_mul_is_commutative(m as int, 100);
                        vstd::arithmetic::mul::lemma_mul_is_associative(100, m as int, pow10((e + 400) as nat));
                    }
                }
            }
            lemma_fin_val_sign(0, 0);
        }
        match self {
            Dec::Nan => Dec::Nan,
            Dec::Inf { neg } => Dec::Inf { neg: *neg },
            Dec::Fin { m, e } => {
                if *e <= EXP_MAX - 2 {
                    Dec::Fin { m: *m, e: *e + 2 }
                } else if *m == 0 {
                    Dec::Fin { m: 0, e: 0 }
                } else {
                    Dec::Inf { neg: *m < 0 }
                }
            },
        }
    }
}

/// The sign of `fin_val(m, e)` is the sign of the coefficient, and negating
/// the coefficient negates the value.
pub proof fn lemma_fin_val_sign(m: int, e: int)
    ensures
        m > 0 ==> fin_val(m, e) > 0,
        m == 0 ==> fin_val(m, e) == 0,
        m < 0 ==> fin_val(m, e) < 0,
        fin_val(-m, e) == -fin_val(m, e),
{
    let p = pow10((e + 400) as nat);
    lemma_pow10_pos((e + 400) as nat);
    if m > 0 {
        vstd::arithmetic::mul::lemma_mul_strictly_positive(m, p);
    }
    if m < 0 {
        vstd::arithmetic::mul::lemma_mul_strictly_positive(-m, p);
        assert((-m) * p == -(m * p)) by {
            vstd::arithmetic::mul::lemma_mul_unary_negation(m, p);
        }
    }
    assert((-m) * p == -(m * p)) by {
        vstd::arithmetic::mul::lemma_mul_unary_negation(m, p);
    }
}

/// Absolute value of a mathematical integer.
pub open spec fn iabs(x: int) -> int {
    if x < 0 { -x } else { x }
}

/// The larger exponent of two finite decimals.
pub open spec fn emax_of(ea: int, eb: int) -> int {
    if ea >= eb { ea } else { eb }
}

/// The smaller exponent of two finite decimals.
pub open spec fn emin_of(ea: int, eb: int) -> int {
    if ea <= eb { ea } else { eb }
}

/// What subtraction promises on two well-formed finite decimals, stated
/// over the exact difference `x` of the scaled values.
pub open spec fn sub_fin_post(ma: int, ea: int, mb: int, eb: int, r: Dec) -> bool {
    let x = fin_val(ma, ea) - fin_val(mb, eb);
    let em = emax_of(ea, eb);
    &&& r.wf()
    &&& (r is Fin || r is Inf)
    &&& (r is Inf ==> iabs(x) > COEF_MAX * pow10(800))
    &&& (r is Fin ==> iabs(x - r.val()) < pow10((em + 840) as nat))
    &&& (r is Fin && x == 0 ==> r.val() == 0)
    &&& (r is Fin && x != 0 ==> r.val() != 0 && ((x > 0) <==> (r.val() > 0)))
    &&& (iabs(x) <= COEF_MAX * pow10((emin_of(ea, eb) + 400) as nat) ==> r is Fin
        && r.val() == x)
    &&& (r is Fin ==> emin_of(ea, eb) <= r->Fin_e <= emax_of(ea, eb) + 34)
}

/// The reduction of a magnitude to at most sixteen digits: the reduced
/// value and the number of digits truncated away.
pub open spec fn spec_reduce(mag: nat) -> (nat, nat)
    decreases mag,
{
    if mag <= COEF_MAX as nat {
        (mag, 0)
    } else {
        let r = spec_reduce(mag / 10);
        (r.0, (r.1 + 1) as nat)
    }
}

/// Reduces a magnitude to at most sixteen digits by truncating decimal
/// digits, returning the reduced magnitude and the number of digits cut.
fn reduce_mag(mag0: u128) -> (r: (u128, u32))
    requires mag0 < pow10(34),
    ensures
        r.0 as nat == spec_reduce(mag0 as nat).0,
        r.1 as nat == spec_reduce(mag0 as nat).1,
        r.0 <= COEF_MAX as u128,
        r.0 * pow10(r.1 as nat) <= mag0 < (r.0 + 1) * pow10(r.1 as nat),
        r.1 <= 34,
        mag0 == 0 ==> r.0 == 0 && r.1 == 0,
        mag0 != 0 ==> r.0 >= 1,
        r.1 >= 1 ==> r.0 >= pow10(15),
        mag0 <= COEF_MAX as u128 ==> r == (mag0, 0u32),
{
    let mut mag: u128 = mag0;
    let mut j: u32 = 0;
    proof {
        vstd::arithmetic::power::lemma_pow0(10);
        lemma_pow10_vals();
    }
    while mag > COEF_MAX as u128
        invariant
            spec_reduce(mag0 as nat) == (spec_reduce(mag as nat).0, (spec_reduce(mag as nat).1 + j) as nat),
            mag * pow10(j as nat) <= mag0 < (mag + 1) * pow10(j as nat),
            mag0 < pow10(34),
            j <= 34,
            j >= 1 ==> mag >= pow10(15),
            mag0 != 0 ==> mag >= 1,
        decreases mag,
    {
        proof {
            lemma_pow10_vals();
            lemma_pow10_pos(j as nat);
            lemma_pow10_adds(j as nat, 1);
            vstd::arithmetic::div_mod::lemma_fundamental_div_mod(mag as int, 10);
            let magn = mag as int / 10;
            // lower bound carries over: (mag/10) * 10^(j+1) <= mag * 10^j
            assert((magn * 10) * pow10(j as nat) <= mag * pow10(j as nat)) by {
                vstd::arithmetic::mul::lemma_mul_inequality(magn * 10, mag as int, pow10(j as nat));
            }
            assert(magn * (10 * pow10(j as nat)) == (magn * 10) * pow10(j as nat)) by {
                vstd::arithmetic::mul::lemma_mul_is_associative(magn, 10, pow10(j as nat));
            }
            // upper bound carries over: mag + 1 <= (mag/10 + 1) * 10
            assert((mag + 1) * pow10(j as nat) <= ((magn + 1) * 10) * pow10(j as nat)) by {
                vstd::arithmetic::mul::lemma_mul_inequality(mag + 1, (magn + 1) * 10, pow10(j as nat));
            }
            assert((magn + 1) * (10 * pow10(j as nat)) == ((magn + 1) * 10) * pow10(j as nat)) by {
                vstd::arithmetic::mul::lemma_mul_is_associative(magn + 1, 10, pow10(j as nat));
            }
            // j stays small: 10^15 * 10^j <= mag * 10^j <= mag0 < 10^34
            assert(magn >= pow10(15));
            if j + 1 > 19 {
                assert(pow10((j + 1) as nat) == 10 * pow10(j as nat));
                assert(magn * pow10((j + 1) as nat) <= mag0);
                assert(pow10(15) * pow10((j + 1) as nat) <= magn * pow10((j + 1) as nat)) by {
                    vstd::arithmetic::mul::lemma_mul_inequality(pow10(15), magn, pow10((j + 1) as nat));
                }
                lemma_pow10_adds(15, (j + 1) as nat);
                assert(pow10((16 + j) as nat) <= mag0);
                lemma_pow10_increases(34, (16 + j) as nat);
                assert(pow10(34) < pow10((16 + j) as nat));
                assert(false);
            }
        }
        mag = mag / 10;
        j = j + 1;
    }
    proof {
        vstd::arithmetic::power::lemma_pow0(10);
        if mag0 <= COEF_MAX as u128 && j >= 1 {
            lemma_pow10_pos(j as nat);
            lemma_pow10_vals();
            assert(pow10(15) * pow10(j as nat) <= mag * pow10(j as nat)) by {
                vstd::arithmetic::mul::lemma_mul_inequality(pow10(15), mag as int, pow10(j as nat));
            }
            lemma_pow10_adds(15, j as nat);
            if 15 + j > 16 {
                lemma_pow10_increases(16, (15 + j) as nat);
            }
            assert(pow10(16) <= pow10((15 + j) as nat));
            assert(false);
        }
    }
    (mag, j)
}

/// When the exponents lie at least 18 apart, the value with the larger
/// exponent dominates: the difference keeps its sign and is far too large
/// to fit a coefficient at the smaller exponent.
proof fn lemma_far_dominates(ma: int, ea: int, mb: int, eb: int)
    requires
        -COEF_MAX <= ma <= COEF_MAX,
        -COEF_MAX <= mb <= COEF_MAX,
        ma != 0,
        EXP_MIN <= ea <= EXP_MAX,
        EXP_MIN <= eb <= EXP_MAX,
        ea - eb >= 18,
    ensures
        iabs(fin_val(mb, eb)) * 100 <= iabs(fin_val(ma, ea)),
        iabs(fin_val(ma, ea) - fin_val(mb, eb)) > COEF_MAX * pow10((eb + 400) as nat),
        fin_val(ma, ea) - fin_val(mb, eb) != 0,
        (fin_val(ma, ea) - fin_val(mb, eb) > 0) <==> (fin_val(ma, ea) > 0),
{
    let q = pow10((eb + 400) as nat);
    let pea = pow10((ea + 400) as nat);
    lemma_pow10_pos((eb + 400) as nat);
    lemma_pow10_pos((ea + 400) as nat);
    lemma_pow10_vals();
    lemma_fin_val_sign(ma, ea);
    lemma_fin_val_sign(mb, eb);
    // |val(mb, eb)| <= COEF_MAX * q < 10^16 * q
    assert(iabs(mb) * q <= COEF_MAX * q) by {
        vstd::arithmetic::mul::lemma_mul_inequality(iabs(mb), COEF_MAX as int, q);
    }
    assert(iabs(fin_val(mb, eb)) == iabs(mb) * q) by {
        vstd::arithmetic::mul::lemma_mul_unary_negation(mb, q);
    }
    // |val(ma, ea)| >= pea >= 10^18 * q
    assert(iabs(fin_val(ma, ea)) == iabs(ma) * q_shift(ea)) by {
        vstd::arithmetic::mul::lemma_mul_unary_negation(ma, pea);
    }
    assert(1 * pea <= iabs(ma) * pea) by {
        vstd::arithmetic::mul::lemma_mul_inequality(1, iabs(ma), pea);
    }
    let k = (ea - eb) as nat;
    lemma_pow10_adds(k, (eb + 400) as nat);
    assert(pea == pow10(k) * q);
    if 18 < k {
        lemma_pow10_increases(18, k);
    }
    assert(pow10(18) * q <= pow10(k) * q) by {
        vstd::arithmetic::mul::lemma_mul_inequality(pow10(18), pow10(k), q);
    }
    assert(iabs(fin_val(ma, ea)) >= 1_000_000_000_000_000_000 * q);
    assert(iabs(fin_val(mb, eb)) <= COEF_MAX * q);
    assert(COEF_MAX * q < 10_000_000_000_000_000 * q);
}

/// Helper naming for the proof above.
spec fn q_shift(ea: int) -> int {
    pow10((ea + 400) as nat)
}

/// The subtraction algorithm as a function: the exact aligned difference
/// where the exponents lie within seventeen of one another (a zero or a
/// far-smaller operand handled directly), truncated to sixteen digits.
pub open spec fn spec_sub_fin(ma: int, ea: int, mb: int, eb: int) -> Dec {
    if ma == 0 {
        Dec::Fin { m: (-mb) as i64, e: eb as i32 }
    } else if mb == 0 {
        Dec::Fin { m: ma as i64, e: ea as i32 }
    } else if ea - eb >= 18 {
        Dec::Fin { m: ma as i64, e: ea as i32 }
    } else if eb - ea >= 18 {
        Dec::Fin { m: (-mb) as i64, e: eb as i32 }
    } else {
        let ec = if ea <= eb { ea } else { eb };
        let pa = iabs(ma) * pow10((ea - ec) as nat);
        let pb = iabs(mb) * pow10((eb - ec) as nat);
        let a_neg = ma < 0;
        let b_neg = mb < 0;
        let neg = if a_neg != b_neg { a_neg } else if pa >= pb { a_neg } else { !a_neg };
        let mag0 = if a_neg != b_neg { pa + pb } else if pa >= pb { pa - pb } else { pb - pa };
        let red = spec_reduce(mag0 as nat);
        let er = ec + red.1;
        if er > EXP_MAX as int {
            Dec::Inf { neg }
        } else {
            Dec::Fin {
                m: if neg { (-(red.0 as int)) as i64 } else { red.0 as i64 },
                e: er as i32,
            }
        }
    }
}

/// Subtracts two well-formed finite decimals, truncating the result to
/// sixteen significant digits toward zero.
#[verifier::rlimit(60)]
fn sub_fin(ma: i64, ea: i32, mb: i64, eb: i32) -> (r: Dec)
    requires
        -COEF_MAX <= ma <= COEF_MAX,
        -COEF_MAX <= mb <= COEF_MAX,
        EXP_MIN <= ea <= EXP_MAX,
        EXP_MIN <= eb <= EXP_MAX,
    ensures
        sub_fin_post(ma as int, ea as int, mb as int, eb as int, r),
        r == spec_sub_fin(ma as int, ea as int, mb as int, eb as int),
{
    proof {
        lemma_fin_val_sign(ma as int, ea as int);
        lemma_fin_val_sign(mb as int, eb as int);
        lemma_pow10_pos((ea + 400) as nat);
        lemma_pow10_pos((eb + 400) as nat);
        lemma_pow10_pos((emax_of(ea as int, eb as int) + 840) as nat);
        lemma_pow10_vals();
    }
    if ma == 0 {
        return Dec::Fin { m: -mb, e: eb };
    }
    if mb == 0 {
        return Dec::Fin { m: ma, e: ea };
    }
    if ea >= eb && ea - eb >= 18 {
        proof {
            lemma_far_dominates(ma as int, ea as int, mb as int, eb as int);
            lemma_pow10_pos((emax_of(ea as int, eb as int) + 840) as nat);
            let x = fin_val(ma as int, ea as int) - fin_val(mb as int, eb as int);
            let em = emax_of(ea as int, eb as int);
            // the dropped term is below the stated error bound
            assert(iabs(fin_val(mb as int, eb as int)) <= COEF_MAX * pow10((eb + 400) as nat)) by {
                vstd::arithmetic::mul::lemma_mul_inequality(iabs(mb as int), COEF_MAX as int, pow10((eb + 400) as nat));
                vstd::arithmetic::mul::lemma_mul_unary_negation(mb as int, pow10((eb + 400) as nat));
            }
            assert(COEF_MAX * pow10((eb + 400) as nat) < pow10(16) * pow10((eb + 400) as nat)) by {
                vstd::arithmetic::mul::lemma_mul_strict_inequality(COEF_MAX as int, pow10(16), pow10((eb + 400) as nat));
            }
            lemma_pow10_adds(16, (eb + 400) as nat);
            lemma_pow10_increases((eb + 416) as nat, (em + 840) as nat);
        }
        return Dec::Fin { m: ma, e: ea };
    }
    if eb >= ea && eb - ea >= 18 {
        proof {
            lemma_far_dominates(mb as int, eb as int, ma as int, ea as int);
            let va = fin_val(ma as int, ea as int);
            let vb = fin_val(mb as int, eb as int);
            let x = va - vb;
            let em = emax_of(ea as int, eb as int);
            assert(iabs(x) == iabs(vb - va));
            assert(iabs(va) <= COEF_MAX * pow10((ea + 400) as nat)) by {
                vstd::arithmetic::mul::lemma_mul_inequality(iabs(ma as int), COEF_MAX as int, pow10((ea + 400) as nat));
                vstd::arithmetic::mul::lemma_mul_unary_negation(ma as int, pow10((ea + 400) as nat));
            }
            assert(COEF_MAX * pow10((ea + 400) as nat) < pow10(16) * pow10((ea + 400) as nat)) by {
                vstd::arithmetic::mul::lemma_mul_strict_inequality(COEF_MAX as int, pow10(16), pow10((ea + 400) as nat));
            }
            lemma_pow10_adds(16, (ea + 400) as nat);
            lemma_pow10_increases((ea + 416) as nat, (em + 840) as nat);
            lemma_fin_val_sign(-(mb as int), eb as int);
        }
        return Dec::Fin { m: -mb, e: eb };
    }
    // exponents within 17 of one another: align exactly and reduce
    let ec: i32 = if ea <= eb { ea } else { eb };
    let sa: u32 = (ea - ec) as u32;
    let sb: u32 = (eb - ec) as u32;
    let a_neg: bool = ma < 0;
    let b_neg: bool = mb < 0;
    let pa0: u64 = if ma < 0 { (-ma) as u64 } else { ma as u64 };
    let pb0: u64 = if mb < 0 { (-mb) as u64 } else { mb as u64 };
    let fa = pow10_u128(sa);
    let fb = pow10_u128(sb);
    proof {
        if (sa as nat) < 17 {
            lemma_pow10_increases(sa as nat, 17);
        }
        if (sb as nat) < 17 {
            lemma_pow10_increases(sb as nat, 17);
        }
        assert((pa0 as int) * (fa as int) <= COEF_MAX * pow10(17)) by {
            vstd::arithmetic::mul::lemma_mul_upper_bound(pa0 as int, COEF_MAX as int, fa as int, pow10(17));
        }
        assert((pb0 as int) * (fb as int) <= COEF_MAX * pow10(17)) by {
            vstd::arithmetic::mul::lemma_mul_upper_bound(pb0 as int, COEF_MAX as int, fb as int, pow10(17));
        }
        assert(COEF_MAX * pow10(17) < pow10(16) * pow10(17)) by {
            vstd::arithmetic::mul::lemma_mul_strict_inequality(COEF_MAX as int, pow10(16), pow10(17));
        }
        lemma_pow10_adds(16, 17);
    }
    let pa: u128 = (pa0 as u128) * fa;
    let pb: u128 = (pb0 as u128) * fb;
    let (neg, mag0): (bool, u128) = if a_neg != b_neg {
        (a_neg, pa + pb)
    } else if pa >= pb {
        (a_neg, pa - pb)
    } else {
        (!a_neg, pb - pa)
    };
    proof {
        // the aligned difference is the exact difference of the values
        let q = pow10((ec + 400) as nat);
        lemma_pow10_pos((ec + 400) as nat);
        lemma_pow10_adds(sa as nat, (ec + 400) as nat);
        lemma_pow10_adds(sb as nat, (ec + 400) as nat);
        assert(fin_val(ma as int, ea as int) == (ma as int) * ((fa as int) * q));
        assert((ma as int) * ((fa as int) * q) == ((ma as int) * (fa as int)) * q) by {
            vstd::arithmetic::mul::lemma_mul_is_associative(ma as int, fa as int, q);
        }
        assert(fin_val(mb as int, eb as int) == ((mb as int) * (fb as int)) * q) by {
            vstd::arithmetic::mul::lemma_mul_is_associative(mb as int, fb as int, q);
        }
        if ma < 0 {
            assert((ma as int) * (fa as int) == -((pa0 as int) * (fa as int))) by {
                vstd::arithmetic::mul::lemma_mul_unary_negation(pa0 as int, fa as int);
            }
        }
        if mb < 0 {
            assert((mb as int) * (fb as int) == -((pb0 as int) * (fb as int))) by {
                vstd::arithmetic::mul::lemma_mul_unary_negation(pb0 as int, fb as int);
            }
        }
        let sx: int = if neg { -(mag0 as int) } else { mag0 as int };
        assert(fin_val(ma as int, ea as int) - fin_val(mb as int, eb as int) == sx * q) by {
            vstd::arithmetic::mul::lemma_mul_is_distributive_sub_other_way(q, (ma as int) * (fa as int), (mb as int) * (fb as int));
            vstd::arithmetic::mul::lemma_mul_unary_negation(mag0 as int, q);
        }
    }
    let (mag, j) = reduce_mag(mag0);
    let er: i64 = ec as i64 + j as i64;
    let ghost x: int = fin_val(ma as int, ea as int) - fin_val(mb as int, eb as int);
    let ghost q: int = pow10((ec + 400) as nat);
    proof {
        lemma_pow10_pos((ec + 400) as nat);
        lemma_pow10_pos(j as nat);
        // value of the reduced pair, and the error it leaves
        lemma_pow10_adds(j as nat, (ec + 400) as nat);
        assert((mag as int) * (pow10(j as nat) * q) == ((mag as int) * pow10(j as nat)) * q) by {
            vstd::arithmetic::mul::lemma_mul_is_associative(mag as int, pow10(j as nat), q);
        }
        assert(((mag as int) * pow10(j as nat)) * q <= (mag0 as int) * q) by {
            vstd::arithmetic::mul::lemma_mul_inequality((mag as int) * pow10(j as nat), mag0 as int, q);
        }
        assert((mag0 as int) * q < (((mag as int) + 1) * pow10(j as nat)) * q) by {
            vstd::arithmetic::mul::lemma_mul_strict_inequality(mag0 as int, ((mag as int) + 1) * pow10(j as nat), q);
        }
        assert((((mag as int) + 1) * pow10(j as nat)) * q == ((mag as int) * pow10(j as nat)) * q + pow10(j as nat) * q) by {
            vstd::arithmetic::mul::lemma_mul_is_distributive_add_other_way(pow10(j as nat), mag as int, 1);
            vstd::arithmetic::mul::lemma_mul_is_distributive_add_other_way(q, (mag as int) * pow10(j as nat), pow10(j as nat));
            vstd::arithmetic::mul::lemma_mul_is_commutative(mag as int, pow10(j as nat));
            vstd::arithmetic::mul::lemma_mul_is_commutative((mag as int) + 1, pow10(j as nat));
        }
    }
    if er > EXP_MAX as i64 {
        proof {
            // only a gigantic difference overflows
            let em = emax_of(ea as int, eb as int);
            assert(j >= 1);
            assert(iabs(x) == (mag0 as int) * q) by {
                vstd::arithmetic::mul::lemma_mul_nonnegative(mag0 as int, q);
                vstd::arithmetic::mul::lemma_mul_unary_negation(mag0 as int, q);
            }
            assert((mag as int) >= pow10(15));
            assert(pow10(15) * pow10(j as nat) <= (mag as int) * pow10(j as nat)) by {
                vstd::arithmetic::mul::lemma_mul_inequality(pow10(15), mag as int, pow10(j as nat));
            }
            lemma_pow10_adds(15, j as nat);
            assert(pow10((15 + j) as nat) * q <= ((mag as int) * pow10(j as nat)) * q) by {
                vstd::arithmetic::mul::lemma_mul_inequality(pow10((15 + j) as nat), (mag as int) * pow10(j as nat), q);
            }
            lemma_pow10_adds((15 + j) as nat, (ec + 400) as nat);
            assert(iabs(x) >= pow10((15 + j + ec + 400) as nat));
            assert(15 + j + ec + 400 >= 816);
            if 816 < 15 + j + ec + 400 {
                lemma_pow10_increases(816, (15 + j + ec + 400) as nat);
            }
            lemma_pow10_adds(16, 800);
            lemma_pow10_pos(800);
            assert(COEF_MAX * pow10(800) < pow10(16) * pow10(800)) by {
                lemma_pow10_pos(800);
                lemma_pow10_vals();
                vstd::arithmetic::mul::lemma_mul_strict_inequality(COEF_MAX as int, pow10(16), pow10(800));
            }
            // in particular the difference does not fit at the common exponent
            let emn = emin_of(ea as int, eb as int);
            if emn + 400 < 800 {
                lemma_pow10_increases((emn + 400) as nat, 800);
            }
            assert(COEF_MAX * pow10((emn + 400) as nat) <= COEF_MAX * pow10(800)) by {
                vstd::arithmetic::mul::lemma_mul_left_inequality(COEF_MAX as int, pow10((emn + 400) as nat), pow10(800));
            }
        }
        return Dec::Inf { neg };
    }
    let rm: i64 = if neg { -(mag as i64) } else { mag as i64 };
    proof {
        let em = emax_of(ea as int, eb as int);
        let rv = fin_val(rm as int, er as int);
        lemma_fin_val_sign(mag as int, er as int);
        assert(rv == (if neg { -((mag as int) * (pow10(j as nat) * q)) } else { (mag as int) * (pow10(j as nat) * q) })) by {
            vstd::arithmetic::mul::lemma_mul_unary_negation(mag as int, pow10(j as nat) * q);
        }
        // error bound: the digits cut away are worth less than one kept unit
        let magj = (mag as int) * pow10(j as nat);
        let diff = mag0 as int - magj;
        assert(((mag as int) + 1) * pow10(j as nat) == magj + pow10(j as nat)) by {
            vstd::arithmetic::mul::lemma_mul_is_distributive_add_other_way(pow10(j as nat), mag as int, 1);
        }
        assert(0 <= diff < pow10(j as nat));
        assert((mag0 as int) * q - magj * q == diff * q) by {
            vstd::arithmetic::mul::lemma_mul_is_distributive_sub_other_way(q, mag0 as int, magj);
        }
        assert(diff * q >= 0) by {
            vstd::arithmetic::mul::lemma_mul_nonnegative(diff, q);
        }
        assert(diff * q < pow10(j as nat) * q) by {
            vstd::arithmetic::mul::lemma_mul_strict_inequality(diff, pow10(j as nat), q);
        }
        assert(x == (if neg { -((mag0 as int) * q) } else { (mag0 as int) * q })) by {
            vstd::arithmetic::mul::lemma_mul_unary_negation(mag0 as int, q);
        }
        if neg {
            assert(x - rv == -((mag0 as int) * q) + magj * q);
            assert(x - rv == -(diff * q));
        } else {
            assert(x - rv == diff * q);
        }
        assert(iabs(x - rv) == diff * q);
        lemma_pow10_adds(j as nat, (ec + 400) as nat);
        assert(j + ec + 400 < em + 840);
        lemma_pow10_increases((j + ec + 400) as nat, (em + 840) as nat);
        // exact when the difference fits at the common exponent
        if iabs(x) <= COEF_MAX * pow10((emin_of(ea as int, eb as int) + 400) as nat) {
            assert(emin_of(ea as int, eb as int) == ec as int);
            assert((mag0 as int) * q == iabs(x));
            if mag0 > COEF_MAX as u128 {
                assert(COEF_MAX * q < (mag0 as int) * q) by {
                    vstd::arithmetic::mul::lemma_mul_strict_inequality(COEF_MAX as int, mag0 as int, q);
                }
            }
            assert(mag0 <= COEF_MAX as u128);
        }
    }
    Dec::Fin { m: rm, e: er as i32 }
}

/// A positive pair with a strictly smaller adjusted exponent (exponent plus
/// digit count) has the strictly smaller value.
proof fn lemma_mag_adj_lt(pa: int, ea: int, pb: int, eb: int)
    requires
        1 <= pa,
        1 <= pb,
        0 <= ea + 400,
        0 <= eb + 400,
        ea + n_digits(pa as nat) < eb + n_digits(pb as nat),
    ensures
        fin_val(pa, ea) < fin_val(pb, eb),
{
    let da = n_digits(pa as nat);
    let db = n_digits(pb as nat);
    lemma_n_digits_bounds(pa as nat);
    lemma_n_digits_bounds(pb as nat);
    let pea = pow10((ea + 400) as nat);
    let peb = pow10((eb + 400) as nat);
    lemma_pow10_pos((ea + 400) as nat);
    lemma_pow10_pos((eb + 400) as nat);
    assert(pa * pea < pow10(da) * pea) by {
        vstd::arithmetic::mul::lemma_mul_strict_inequality(pa, pow10(da), pea);
    }
    lemma_pow10_adds(da, (ea + 400) as nat);
    let hi = (da + ea + 400) as nat;
    let lo = (db - 1 + eb + 400) as nat;
    if hi < lo {
        lemma_pow10_increases(hi, lo);
    }
    lemma_pow10_adds((db - 1) as nat, (eb + 400) as nat);
    assert(pow10((db - 1) as nat) * peb <= pb * peb) by {
        vstd::arithmetic::mul::lemma_mul_inequality(pow10((db - 1) as nat), pb, peb);
    }
}

/// Compares two positive magnitudes.
fn cmp_mag(pa: u64, ea: i32, pb: u64, eb: i32) -> (r: i8)
    requires
        1 <= pa <= COEF_MAX as u64,
        1 <= pb <= COEF_MAX as u64,
        EXP_MIN <= ea <= EXP_MAX,
        EXP_MIN <= eb <= EXP_MAX,
    ensures
        r == 1i8 <==> fin_val(pa as int, ea as int) > fin_val(pb as int, eb as int),
        r == 0i8 <==> fin_val(pa as int, ea as int) == fin_val(pb as int, eb as int),
        r == -1i8 <==> fin_val(pa as int, ea as int) < fin_val(pb as int, eb as int),
{
    proof {
        lemma_pow10_vals();
        lemma_n_digits_at_most(pa as nat, 16);
        lemma_n_digits_at_most(pb as nat, 16);
        lemma_n_digits_bounds(pa as nat);
        lemma_n_digits_bounds(pb as nat);
    }
    let da = digits_u128(pa as u128);
    let db = digits_u128(pb as u128);
    let aa: i64 = ea as i64 + da as i64;
    let ab: i64 = eb as i64 + db as i64;
    if aa < ab {
        proof {
            lemma_mag_adj_lt(pa as int, ea as int, pb as int, eb as int);
        }
        -1
    } else if aa > ab {
        proof {
            lemma_mag_adj_lt(pb as int, eb as int, pa as int, ea as int);
        }
        1
    } else if da <= db {
        let s = pow10_u128(db - da);
        proof {
            if (db - da) < 16 {
                lemma_pow10_increases((db - da) as nat, 16);
            }
            assert((pa as u128) * s <= (COEF_MAX as u128) * s) by {
                vstd::arithmetic::mul::lemma_mul_inequality(pa as int, COEF_MAX as int, s as int);
            }
            assert((COEF_MAX as u128) * s < (COEF_MAX as u128) * pow10(16)) by {
                vstd::arithmetic::mul::lemma_mul_strict_inequality(s as int, pow10(16), COEF_MAX as int);
                vstd::arithmetic::mul::lemma_mul_is_commutative(COEF_MAX as int, s as int);
                vstd::arithmetic::mul::lemma_mul_is_commutative(COEF_MAX as int, pow10(16));
            }
            lemma_pow10_38();
            assert((COEF_MAX as int) * pow10(16) < pow10(16) * pow10(16)) by {
                vstd::arithmetic::mul::lemma_mul_strict_inequality(COEF_MAX as int, pow10(16), pow10(16));
                vstd::arithmetic::mul::lemma_mul_is_commutative(pow10(16), COEF_MAX as int);
            }
            lemma_pow10_adds(16, 16);
            lemma_pow10_increases(32, 38);
        }
        let pa2: u128 = (pa as u128) * s;
        proof {
            let k = (db - da) as nat;
            let peb = pow10((eb + 400) as nat);
            lemma_pow10_pos((eb + 400) as nat);
            lemma_pow10_adds(k, (eb + 400) as nat);
            assert((ea + 400) as nat == k + ((eb + 400) as nat));
            assert(fin_val(pa as int, ea as int) == (pa as int) * (pow10(k) * peb));
            assert((pa as int) * (pow10(k) * peb) == ((pa as int) * pow10(k)) * peb) by {
                vstd::arithmetic::mul::lemma_mul_is_associative(pa as int, pow10(k), peb);
            }
            assert(pa2 as int == (pa as int) * pow10(k));
            if (pa2 as int) < pb as int {
                vstd::arithmetic::mul::lemma_mul_strict_inequality(pa2 as int, pb as int, peb);
            }
            if (pa2 as int) > pb as int {
                vstd::arithmetic::mul::lemma_mul_strict_inequality(pb as int, pa2 as int, peb);
            }
        }
        if pa2 < pb as u128 { -1 } else if pa2 == pb as u128 { 0 } else { 1 }
    } else {
        let s = pow10_u128(da - db);
        proof {
            if (da - db) < 16 {
                lemma_pow10_increases((da - db) as nat, 16);
            }
            assert((pb as u128) * s <= (COEF_MAX as u128) * s) by {
                vstd::arithmetic::mul::lemma_mul_inequality(pb as int, COEF_MAX as int, s as int);
            }
            assert((COEF_MAX as u128) * s < (COEF_MAX as u128) * pow10(16)) by {
                vstd::arithmetic::mul::lemma_mul_strict_inequality(s as int, pow10(16), COEF_MAX as int);
                vstd::arithmetic::mul::lemma_mul_is_commutative(COEF_MAX as int, s as int);
                vstd::arithmetic::mul::lemma_mul_is_commutative(COEF_MAX as int, pow10(16));
            }
            lemma_pow10_38();
            assert((COEF_MAX as int) * pow10(16) < pow10(16) * pow10(16)) by {
                vstd::arithmetic::mul::lemma_mul_strict_inequality(COEF_MAX as int, pow10(16), pow10(16));
                vstd::arithmetic::mul::lemma_mul_is_commutative(pow10(16), COEF_MAX as int);
            }
            lemma_pow10_adds(16, 16);
            lemma_pow10_increases(32, 38);
        }
        let pb2: u128 = (pb as u128) * s;
        proof {
            let k = (da - db) as nat;
            let pea = pow10((ea + 400) as nat);
            lemma_pow10_pos((ea + 400) as nat);
            lemma_pow10_adds(k, (ea + 400) as nat);
            assert((eb + 400) as nat == k + ((ea + 400) as nat));
            assert(fin_val(pb as int, eb as int) == (pb as int) * (pow10(k) * pea));
            assert((pb as int) * (pow10(k) * pea) == ((pb as int) * pow10(k)) * pea) by {
                vstd::arithmetic::mul::lemma_mul_is_associative(pb as int, pow10(k), pea);
            }
            assert(pb2 as int == (pb as int) * pow10(k));
            if (pa as int) < pb2 as int {
                vstd::arithmetic::mul::lemma_mul_strict_inequality(pa as int, pb2 as int, pea);
            }
            if (pa as int) > pb2 as int {
                vstd::arithmetic::mul::lemma_mul_strict_inequality(pb2 as int, pa as int, pea);
            }
        }
        if (pa as u128) < pb2 { -1 } else if pa as u128 == pb2 { 0 } else { 1 }
    }
}

/// Compares two well-formed finite decimals by value.
fn cmp_fin(ma: i64, ea: i32, mb: i64, eb: i32) -> (r: i8)
    requires
        -COEF_MAX <= ma <= COEF_MAX,
        -COEF_MAX <= mb <= COEF_MAX,
        EXP_MIN <= ea <= EXP_MAX,
        EXP_MIN <= eb <= EXP_MAX,
    ensures
        r == 1i8 <==> fin_val(ma as int, ea as int) > fin_val(mb as int, eb as int),
        r == 0i8 <==> fin_val(ma as int, ea as int) == fin_val(mb as int, eb as int),
        r == -1i8 <==> fin_val(ma as int, ea as int) < fin_val(mb as int, eb as int),
{
    proof {
        lemma_fin_val_sign(ma as int, ea as int);
        lemma_fin_val_sign(mb as int, eb as int);
    }
    if ma == 0 && mb == 0 {
        0
    } else if ma <= 0 && mb > 0 {
        -1
    } else if ma >= 0 && mb < 0 {
        1
    } else if mb == 0 {
        if ma > 0 { 1 } else { -1 }
    } else if ma > 0 {
        cmp_mag(ma as u64, ea, mb as u64, eb)
    } else {
        cmp_mag((-mb) as u64, eb, (-ma) as u64, ea)
    }
}

/// `10^n` is positive.
pub proof fn lemma_pow10_pos(n: nat)
    ensures pow10(n) > 0,
{
    lemma_pow_positive(10, n);
}

/// `10^a * 10^b == 10^(a + b)`.
pub proof fn lemma_pow10_adds(a: nat, b: nat)
    ensures pow10(a) * pow10(b) == pow10(a + b),
{
    lemma_pow_adds(10, a, b);
}

/// `10^a < 10^b` when `a < b`.
pub proof fn lemma_pow10_increases(a: nat, b: nat)
    requires a < b,
    ensures pow10(a) < pow10(b),
{
    lemma_pow_strictly_increases(10, a, b);
}

/// How many decimal digits `n` has (one digit for zero).
pub open spec fn n_digits(n: nat) -> nat
    decreases n,
{
    if n < 10 { 1 } else { (1 + n_digits(n / 10)) as nat }
}

/// A positive `n` with `d` digits satisfies `10^(d-1) <= n < 10^d`.
pub proof fn lemma_n_digits_bounds(n: nat)
    requires n >= 1,
    ensures
        n_digits(n) >= 1,
        pow10((n_digits(n) - 1) as nat) <= n < pow10(n_digits(n)),
    decreases n,
{
    vstd::arithmetic::power::lemma_pow0(10);
    vstd::arithmetic::power::lemma_pow1(10);
    if n < 10 {
    } else {
        let q = n / 10;
        vstd::arithmetic::div_mod::lemma_fundamental_div_mod(n as int, 10);
        lemma_n_digits_bounds(q);
        let d = n_digits(q);
        assert(pow10((d - 1) as nat) <= q < pow10(d));
        lemma_pow10_adds((d - 1) as nat, 1);
        lemma_pow10_adds(d, 1);
        assert(pow10(d) == pow10((d - 1) as nat) * 10) by {
            lemma_pow10_adds((d - 1) as nat, 1);
        }
        assert(n >= 10 * q >= 10 * pow10((d - 1) as nat)) by {
            vstd::arithmetic::mul::lemma_mul_inequality(pow10((d - 1) as nat), q as int, 10);
        }
        assert(n < 10 * (q + 1) <= 10 * pow10(d)) by {
            vstd::arithmetic::mul::lemma_mul_inequality(q + 1int, pow10(d), 10);
        }
    }
}

/// The digit count is the unique `t` with `10^(t-1) <= n < 10^t`.
pub proof fn lemma_n_digits_unique(n: nat, t: nat)
    requires t >= 1, pow10((t - 1) as nat) <= n < pow10(t),
    ensures n_digits(n) == t,
{
    lemma_pow10_pos((t - 1) as nat);
    lemma_n_digits_bounds(n);
    let d = n_digits(n);
    if d < t {
        if d < t - 1 {
            lemma_pow10_increases(d, (t - 1) as nat);
        }
        assert(n < pow10(d) <= pow10((t - 1) as nat) <= n);
    }
    if d > t {
        if t < d - 1 {
            lemma_pow10_increases(t, (d - 1) as nat);
        }
        assert(n < pow10(t) <= pow10((d - 1) as nat) <= n);
    }
}

/// Appending `k` zero digits adds `k` to the digit count.
pub proof fn lemma_n_digits_shift(a: nat, k: nat)
    requires a >= 1,
    ensures n_digits((a * pow10(k)) as nat) == n_digits(a) + k,
{
    let d = n_digits(a);
    lemma_n_digits_bounds(a);
    lemma_pow10_pos(k);
    assert(pow10((d - 1) as nat) * pow10(k) <= a * pow10(k)) by {
        vstd::arithmetic::mul::lemma_mul_inequality(pow10((d - 1) as nat), a as int, pow10(k));
    }
    assert(a * pow10(k) < pow10(d) * pow10(k)) by {
        vstd::arithmetic::mul::lemma_mul_strict_inequality(a as int, pow10(d), pow10(k));
    }
    lemma_pow10_adds((d - 1) as nat, k);
    lemma_pow10_adds(d, k);
    assert(a * pow10(k) >= 1) by {
        vstd::arithmetic::mul::lemma_mul_strictly_positive(a as int, pow10(k));
    }
    lemma_n_digits_unique((a * pow10(k)) as nat, d + k);
}

/// `10^38` written out, for overflow bounds in `u128` arithmetic.
pub proof fn lemma_pow10_38()
    ensures pow10(38) == 100_000_000_000_000_000_000_000_000_000_000_000_000int,
{
    vstd::arithmetic::power::lemma_pow1(10);
    lemma_pow10_adds(1, 1);
    lemma_pow10_adds(2, 2);
    lemma_pow10_adds(4, 4);
    lemma_pow10_adds(8, 8);
    lemma_pow10_adds(16, 16);
    lemma_pow10_adds(32, 4);
    lemma_pow10_adds(36, 2);
    assert(pow10(2) == 100);
    assert(pow10(4) == 10_000) by (nonlinear_arith)
        requires pow10(4) == pow10(2) * pow10(2), pow10(2) == 100int;
    assert(pow10(8) == 100_000_000) by (nonlinear_arith)
        requires pow10(8) == pow10(4) * pow10(4), pow10(4) == 10_000int;
    assert(pow10(16) == 10_000_000_000_000_000) by (nonlinear_arith)
        requires pow10(16) == pow10(8) * pow10(8), pow10(8) == 100_000_000int;
    assert(pow10(32) == 100_000_000_000_000_000_000_000_000_000_000int) by (nonlinear_arith)
        requires
            pow10(32) == pow10(16) * pow10(16),
            pow10(16) == 10_000_000_000_000_000int;
    assert(pow10(36) == pow10(32) * pow10(4));
    assert(pow10(36) == 1_000_000_000_000_000_000_000_000_000_000_000_000int) by (nonlinear_arith)
        requires
            pow10(36) == pow10(32) * pow10(4),
            pow10(32) == 100_000_000_000_000_000_000_000_000_000_000int,
            pow10(4) == 10_000int;
    assert(pow10(38) == pow10(36) * pow10(2));
}

/// A positive `n` below `10^k` has at most `k` digits.
pub proof fn lemma_n_digits_at_most(n: nat, k: nat)
    requires 1 <= n, n < pow10(k),
    ensures n_digits(n) <= k,
{
    lemma_n_digits_bounds(n);
    if n_digits(n) > k {
        lemma_pow10_increases(k, (n_digits(n) - 1) as nat);
        assert(n < pow10(k) <= pow10((n_digits(n) - 1) as nat) <= n);
    }
}

/// Every `u128` has at most 39 decimal digits.
pub proof fn lemma_n_digits_u128(n: u128)
    requires n >= 1,
    ensures n_digits(n as nat) <= 39,
{
    lemma_pow10_38();
    lemma_pow10_adds(38, 1);
    vstd::arithmetic::power::lemma_pow1(10);
    lemma_n_digits_at_most(n as nat, 39);
}

/// Values of `10^k` that the coefficient bounds lean on.
pub proof fn lemma_pow10_vals()
    ensures
        pow10(0) == 1,
        pow10(1) == 10,
        pow10(2) == 100,
        pow10(15) == 1_000_000_000_000_000,
        pow10(16) == 10_000_000_000_000_000,
        pow10(17) == 100_000_000_000_000_000,
        pow10(18) == 1_000_000_000_000_000_000,
        pow10(33) == 1_000_000_000_000_000_000_000_000_000_000_000,
        pow10(34) == 10_000_000_000_000_000_000_000_000_000_000_000,
{
    vstd::arithmetic::power::lemma_pow0(10);
    vstd::arithmetic::power::lemma_pow1(10);
    lemma_pow10_adds(1, 1);
    lemma_pow10_adds(2, 2);
    lemma_pow10_adds(4, 4);
    assert(pow10(2) == 100);
    assert(pow10(4) == 10_000) by (nonlinear_arith)
        requires pow10(4) == pow10(2) * pow10(2), pow10(2) == 100int;
    assert(pow10(8) == 100_000_000) by (nonlinear_arith)
        requires pow10(8) == pow10(4) * pow10(4), pow10(4) == 10_000int;
    lemma_pow10_adds(8, 4);
    assert(pow10(12) == 1_000_000_000_000) by (nonlinear_arith)
        requires pow10(12) == pow10(8) * pow10(4), pow10(8) == 100_000_000int, pow10(4) == 10_000int;
    lemma_pow10_adds(12, 2);
    assert(pow10(14) == 100_000_000_000_000) by (nonlinear_arith)
        requires pow10(14) == pow10(12) * pow10(2), pow10(12) == 1_000_000_000_000int, pow10(2) == 100int;
    lemma_pow10_adds(14, 1);
    lemma_pow10_adds(15, 1);
    lemma_pow10_adds(16, 1);
    lemma_pow10_adds(17, 1);
    lemma_pow10_adds(16, 17);
    assert(pow10(33) == 1_000_000_000_000_000_000_000_000_000_000_000int) by (nonlinear_arith)
        requires
            pow10(33) == pow10(16) * pow10(17),
            pow10(16) == 10_000_000_000_000_000int,
            pow10(17) == 100_000_000_000_000_000int;
    lemma_pow10_adds(33, 1);
}

/// Computes `10^k` for small `k`.
pub(crate) fn pow10_u128(k: u32) -> (r: u128)
    requires k <= 38,
    ensures r == pow10(k as nat),
{
    proof {
        vstd::arithmetic::power::lemma_pow0(10);
    }
    let mut r: u128 = 1;
    let mut i: u32 = 0;
    while i < k
        invariant
            i <= k <= 38,
            r == pow10(i as nat),
        decreases k - i,
    {
        proof {
            lemma_pow10_adds(i as nat, 1);
            vstd::arithmetic::power::lemma_pow1(10);
            lemma_pow10_38();
            assert(r * 10 == pow10((i + 1) as nat));
            if i + 1 < 38 {
                lemma_pow10_increases((i + 1) as nat, 38);
            }
            assert(r * 10 <= pow10(38));
        }
        r = r * 10;
        i = i + 1;
    }
    r
}

/// Counts the decimal digits of `n`.
pub(crate) fn digits_u128(n: u128) -> (d: u32)
    requires n >= 1,
    ensures d == n_digits(n as nat),
{
    proof {
        lemma_n_digits_u128(n);
    }
    let mut d: u32 = 1;
    let mut m: u128 = n;
    while m >= 10
        invariant
            m >= 1,
            d >= 1,
            n_digits(n as nat) == d - 1 + n_digits(m as nat),
            n_digits(n as nat) <= 39,
        decreases m,
    {
        proof {
            lemma_n_digits_bounds(m as nat);
        }
        m = m / 10;
        d = d + 1;
    }
    d
}

} // verus!
