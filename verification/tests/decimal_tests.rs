//! Tests of the decimal type, the nice-number helpers, formatting and
//! parsing.

use coinlive::decimal::Dec;
use coinlive::fmt::{fmt_dec, parse_dec};
use coinlive::nice::{dec_nice_range, Dec64Nice};

fn dec(s: &str) -> Dec {
    parse_dec(s).expect("literal must parse")
}

#[test]
fn parse_dec_accepts_plain_and_fractional_literals() {
    assert!(dec("0").eq_val(&Dec::Fin { m: 0, e: 0 }));
    assert!(dec("100").eq_val(&Dec::Fin { m: 100, e: 0 }));
    assert!(dec("12.5").eq_val(&Dec::Fin { m: 125, e: -1 }));
    assert!(dec("-0.004").eq_val(&Dec::Fin { m: -4, e: -3 }));
    assert!(dec("0.00000001").eq_val(&Dec::Fin { m: 1, e: -8 }));
}

#[test]
fn parse_dec_rejects_malformed_literals() {
    assert!(parse_dec("").is_none());
    assert!(parse_dec("-").is_none());
    assert!(parse_dec("1.").is_none());
    assert!(parse_dec(".5").is_none());
    assert!(parse_dec("1.2.3").is_none());
    assert!(parse_dec("12a").is_none());
    assert!(parse_dec("9999999999999999").is_some());
}

#[test]
fn parse_dec_truncates_beyond_sixteen_significant_digits() {
    // a seventeenth digit is cut away, moving the exponent up
    assert!(dec("12345678901234567").eq_val(&Dec::Fin { m: 1234567890123456, e: 1 }));
    // extra fraction digits are cut away without touching the exponent
    assert!(dec("0.123456789012345678").eq_val(&Dec::Fin { m: 1234567890123456, e: -16 }));
    // a realistic large quote volume keeps its leading sixteen digits
    assert!(dec("12345678901.23456789").eq_val(&Dec::Fin { m: 1234567890123456, e: -5 }));
    assert!(dec("99999999999999999").eq_val(&Dec::Fin { m: 9999999999999999, e: 1 }));
}

#[test]
fn fmt_dec_renders_placeholder_for_non_finite_values() {
    assert_eq!(fmt_dec(Dec::Nan), "-");
    assert_eq!(fmt_dec(Dec::Inf { neg: false }), "-");
    assert_eq!(fmt_dec(Dec::Inf { neg: true }), "-");
}

#[test]
fn fmt_dec_strips_trailing_zeros() {
    assert_eq!(fmt_dec(Dec::Fin { m: 12300, e: -4 }), "1.23");
    assert_eq!(fmt_dec(Dec::Fin { m: 100, e: 0 }), "100");
    assert_eq!(fmt_dec(dec("1.2300")), "1.23");
}

#[test]
fn fmt_dec_uses_slash_notation_for_leading_zeros() {
    // 0.09 is the digit 9 preceded by one zero after the point
    assert_eq!(fmt_dec(dec("0.09")), "2\\9");
    assert_eq!(fmt_dec(dec("0.00123")), "3\\123");
    assert_eq!(fmt_dec(dec("0.00000001")), "8\\1");
    // one leading zero before the first digit still renders plainly
    assert_eq!(fmt_dec(dec("0.5")), "0.5");
    assert_eq!(fmt_dec(dec("0.125")), "0.125");
}

#[test]
fn fmt_dec_renders_plain_decimals() {
    assert_eq!(fmt_dec(dec("12.34")), "12.34");
    assert_eq!(fmt_dec(dec("-2")), "-2");
    assert_eq!(fmt_dec(dec("-0.5")), "-0.5");
    assert_eq!(fmt_dec(Dec::Fin { m: 12, e: 3 }), "12000");
    assert_eq!(fmt_dec(dec("0")), "0");
}

#[test]
fn abs_floor_ceil_behave_like_integers() {
    assert!(dec("-2.5").abs().eq_val(&dec("2.5")));
    assert!(dec("2.5").abs().eq_val(&dec("2.5")));
    assert!(dec("2.7").floor().eq_val(&dec("2")));
    assert!(dec("-2.0").floor().eq_val(&dec("-2")));
    assert!(dec("-2.1").floor().eq_val(&dec("-3")));
    assert!(dec("2.1").ceil().eq_val(&dec("3")));
    assert!(dec("-2.1").ceil().eq_val(&dec("-2")));
    assert!(dec("5").floor().eq_val(&dec("5")));
}

#[test]
fn decomp_returns_exponent_and_unit_mantissa() {
    let (e, m) = dec("12.34").decomp();
    assert_eq!(e, 1);
    assert!(m.eq_val(&dec("1.234")));
    let (e2, m2) = dec("0.005").decomp();
    assert_eq!(e2, -3);
    assert!(m2.eq_val(&dec("5")));
    let (e3, m3) = dec("-250").decomp();
    assert_eq!(e3, 2);
    assert!(m3.eq_val(&dec("-2.5")));
}

#[test]
fn nice_snaps_to_canonical_steps() {
    // round mode: thresholds at 1.5, 3 and 7
    assert!(dec("1.4").nice(true).eq_val(&dec("1")));
    assert!(dec("1.5").nice(true).eq_val(&dec("2")));
    assert!(dec("2.9").nice(true).eq_val(&dec("2")));
    assert!(dec("3").nice(true).eq_val(&dec("5")));
    assert!(dec("6.9").nice(true).eq_val(&dec("5")));
    assert!(dec("7").nice(true).eq_val(&dec("10")));
    assert!(dec("15").nice(true).eq_val(&dec("20")));
    assert!(dec("-15").nice(true).eq_val(&dec("-20")));
    // ceiling mode: thresholds at the boundaries themselves
    assert!(dec("1").nice(false).eq_val(&dec("1")));
    assert!(dec("1.1").nice(false).eq_val(&dec("2")));
    // boundary values map to themselves
    assert!(dec("2").nice(false).eq_val(&dec("2")));
    assert!(dec("4.9").nice(false).eq_val(&dec("5")));
    assert!(dec("5").nice(false).eq_val(&dec("5")));
    assert!(dec("5.1").nice(false).eq_val(&dec("10")));
    assert!(dec("0.009").nice(false).eq_val(&dec("0.01")));
}

#[test]
fn nice_is_idempotent_on_samples_in_both_modes() {
    for s in ["1.4", "2", "2.9", "4", "5", "7", "15", "0.033", "990", "-62"] {
        for round in [true, false] {
            let once = dec(s).nice(round);
            let twice = once.nice(round);
            assert!(once.eq_val(&twice), "nice changed a nice value for {s}");
        }
    }
}

#[test]
fn nice_range_bounds_enclose_the_input() {
    let (lo, hi) = dec_nice_range(dec("1"), dec("10"));
    assert!(lo.eq_val(&dec("1")));
    assert!(hi.eq_val(&dec("10")));

    let (lo, hi) = dec_nice_range(dec("3"), dec("17"));
    assert!(!lo.gt(&dec("3")));
    assert!(!hi.lt(&dec("17")));
    assert!(lo.lt(&hi));

    // inverted input is swapped first
    let (lo, hi) = dec_nice_range(dec("17"), dec("3"));
    assert!(!lo.gt(&dec("3")));
    assert!(!hi.lt(&dec("17")));
    assert!(lo.lt(&hi));

    // fractional range
    let (lo, hi) = dec_nice_range(dec("0.12"), dec("0.87"));
    assert!(!lo.gt(&dec("0.12")));
    assert!(!hi.lt(&dec("0.87")));
    assert!(lo.lt(&hi));
}

#[test]
fn nice_range_widens_degenerate_input() {
    let (lo, hi) = dec_nice_range(dec("5"), dec("5"));
    assert!(lo.lt(&hi));
    assert!(!lo.gt(&dec("5")));
    assert!(!hi.lt(&dec("5")));

    let (lo, hi) = dec_nice_range(dec("0"), dec("0"));
    assert!(lo.lt(&hi));
}

#[test]
fn arithmetic_matches_hand_results() {
    let d = dec("100").sub(&dec("90"));
    assert!(d.eq_val(&dec("10")));
    let q = dec("10").div(&dec("90"));
    assert!(q.eq_val(&dec("0.1111111111111111")));
    let p = q.mul100();
    assert!(p.eq_val(&dec("11.11111111111111")));
    let m = dec("2.5").mul(&dec("4"));
    assert!(m.eq_val(&dec("10")));
    assert!(dec("1").div(&dec("0")).is_infinite());
    assert!(dec("0").div(&dec("0")).is_nan());
    assert!(Dec::Nan.sub(&dec("1")).is_nan());
}

#[test]
fn comparisons_treat_nan_as_unordered() {
    assert!(dec("1").lt(&dec("2")));
    assert!(!dec("2").lt(&dec("1")));
    assert!(!Dec::Nan.lt(&dec("1")));
    assert!(!dec("1").lt(&Dec::Nan));
    assert!(!Dec::Nan.eq_val(&Dec::Nan));
    assert!(dec("0.5").eq_val(&Dec::Fin { m: 500, e: -3 }));
    assert!(Dec::Inf { neg: true }.lt(&dec("0")));
    assert!(dec("0").lt(&Dec::Inf { neg: false }));
}

#[test]
fn parse_dec_handles_leading_zeros_and_signed_zero() {
    assert!(dec("00.5").eq_val(&dec("0.5")));
    assert!(dec("-0").eq_val(&dec("0")));
    assert!(dec("007").eq_val(&dec("7")));
}

#[test]
fn nice_keeps_sign_in_ceiling_mode() {
    assert!(dec("-1.1").nice(false).eq_val(&dec("-2")));
    assert!(dec("-7").nice(true).eq_val(&dec("-10")));
}

#[test]
fn fmt_dec_boundary_between_plain_and_slash() {
    // one tenth renders plainly, one hundredth compacts
    assert_eq!(fmt_dec(dec("0.1")), "0.1");
    assert_eq!(fmt_dec(dec("0.01")), "2\\1");
}

#[test]
fn nice_range_ignores_argument_order() {
    for (a, b) in [("3", "17"), ("0.12", "0.87"), ("-5", "11"), ("1", "10")] {
        let (lo1, hi1) = dec_nice_range(dec(a), dec(b));
        let (lo2, hi2) = dec_nice_range(dec(b), dec(a));
        assert!(lo1.eq_val(&lo2), "{a} {b}");
        assert!(hi1.eq_val(&hi2), "{a} {b}");
    }
}
