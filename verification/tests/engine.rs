use lpc::LpcError;
use lpc::acf::auto_corr;
use lpc::envelope::{evaluate_envelope, Cplx};
use lpc::filter::{analysis_filter, synthesis_filter};
use lpc::levinson::levinson_durbin;
use lpc::lpc::{lpc_coef, Lpc};
use lpc::rat::Rat;

fn q(n: i64, d: i64) -> Rat {
    Rat::new(n, d).unwrap()
}

fn ints(xs: &[i64]) -> Vec<Rat> {
    let mut v = Vec::new();
    for &x in xs {
        v.push(Rat::from_int(x));
    }
    v
}

fn assert_val(r: &Rat, n: i64, d: i64) {
    assert!(r.eq_rat(&q(n, d)), "expected {}/{}, got {}/{}", n, d, r.num(), r.den());
}

#[test]
fn rational_arithmetic_is_exact_and_reduced() {
    let a = q(6, 4);
    assert_eq!(a.num(), 3);
    assert_eq!(a.den(), 2);
    let b = q(1, 3);
    let s = a.add(&b).unwrap();
    assert_val(&s, 11, 6);
    let d = a.sub(&b).unwrap();
    assert_val(&d, 7, 6);
    let m = a.mul(&b).unwrap();
    assert_val(&m, 1, 2);
    let r = a.div(&b).unwrap();
    assert_val(&r, 9, 2);
    assert_val(&a.neg(), -3, 2);
    assert_val(&a.neg().abs(), 3, 2);
    assert!(q(2, 4).eq_rat(&q(1, 2)));
    assert!(q(1, 3).le(&q(1, 2)));
    assert!(!q(1, 2).le(&q(1, 3)));
}

#[test]
fn rational_overflow_is_reported() {
    let big = Rat::from_int(i64::MAX);
    assert!(big.mul(&big).is_none());
    assert!(big.add(&q(1, 3)).is_none());
}

#[test]
fn periodic_acf_of_constant_signal_is_n_c_squared() {
    let s = ints(&[2, 2, 2, 2]);
    let acf = auto_corr(&s, 2, true).unwrap();
    assert_eq!(acf.len(), 3);
    for v in &acf {
        assert_val(v, 16, 1);
    }
}

#[test]
fn periodic_acf_is_symmetric_in_the_lag() {
    let s = ints(&[1, 2, 3, 4]);
    let acf = auto_corr(&s, 3, true).unwrap();
    assert_val(&acf[0], 30, 1);
    assert_val(&acf[1], 24, 1);
    assert_val(&acf[2], 22, 1);
    assert_val(&acf[3], 24, 1);
    assert!(acf[1].eq_rat(&acf[3]));
}

#[test]
fn windowed_acf_stops_at_the_edge() {
    let s = ints(&[1, 2, 3]);
    let acf = auto_corr(&s, 2, false).unwrap();
    assert_val(&acf[0], 14, 1);
    assert_val(&acf[1], 8, 1);
    assert_val(&acf[2], 3, 1);
}

#[test]
fn acf_rejects_order_not_below_length() {
    assert_eq!(auto_corr(&ints(&[1, 2]), 2, true).unwrap_err(), LpcError::InvalidArgument);
    assert_eq!(auto_corr(&ints(&[]), 0, true).unwrap_err(), LpcError::InvalidArgument);
}

#[test]
fn acf_overflow_is_reported() {
    let s = vec![Rat::from_int(i64::MAX), Rat::from_int(i64::MAX)];
    assert_eq!(auto_corr(&s, 1, true).unwrap_err(), LpcError::Overflow);
}

#[test]
fn levinson_solves_a_small_system_exactly() {
    let acf = ints(&[2, 1, 1]);
    let (c, e) = levinson_durbin(&acf, 2, false).unwrap();
    assert_eq!(c.len(), 3);
    assert_eq!(e.len(), 3);
    assert_val(&c[0], 1, 1);
    assert_val(&c[1], -1, 3);
    assert_val(&c[2], -1, 3);
    assert_val(&e[0], 1, 1);
    assert_val(&e[1], 3, 2);
    assert_val(&e[2], 4, 3);
}

#[test]
fn levinson_order_zero_is_the_trivial_model() {
    let acf = ints(&[5]);
    let (c, e) = levinson_durbin(&acf, 0, false).unwrap();
    assert_eq!(c.len(), 1);
    assert_val(&c[0], 1, 1);
    assert_val(&e[0], 1, 1);
}

#[test]
fn zero_lag_autocorrelation_is_degenerate() {
    let acf = ints(&[0, 1]);
    assert_eq!(levinson_durbin(&acf, 1, false).unwrap_err(), LpcError::Degenerate);
    assert_eq!(levinson_durbin(&acf, 1, true).unwrap_err(), LpcError::Degenerate);
}

#[test]
fn raw_recursion_fails_on_vanished_energy_and_clamped_continues() {
    // a constant signal: energy vanishes after the first order
    let acf = ints(&[4, 4, 4]);
    assert_eq!(levinson_durbin(&acf, 2, false).unwrap_err(), LpcError::Degenerate);
    let (c, e) = levinson_durbin(&acf, 2, true).unwrap();
    assert_val(&c[0], 1, 1);
    assert_val(&c[1], -1, 1);
    assert_val(&c[2], 0, 1);
    assert_val(&e[1], 0, 1);
    assert_val(&e[2], 0, 1);
}

#[test]
fn constant_signal_model_through_the_clamped_one_call_solver() {
    let s = ints(&[3, 3, 3, 3]);
    let c = lpc_coef(&s, 2).unwrap();
    assert_val(&c[0], 1, 1);
    assert_val(&c[1], -1, 1);
    assert_val(&c[2], 0, 1);
}

#[test]
fn clamped_reflection_coefficient_can_exceed_one() {
    // |num| <= 2|energy| passes the guard yet yields magnitude above one
    let acf = vec![q(2, 1), q(3, 1), q(0, 1)];
    let (c, _e) = levinson_durbin(&acf, 2, true).unwrap();
    // the order-1 ratio -3/2 is not clamped at the base; the clamped step
    // yields -9/5 and updates the middle coefficient to 6/5
    assert_val(&c[1], 6, 5);
    assert_val(&c[2], -9, 5);
    assert!(!c[2].abs().le(&q(1, 1)), "clamped step still exceeded one: {}/{}", c[2].num(), c[2].den());
    assert!(c[2].abs().le(&q(2, 1)));
}

#[test]
fn analysis_filter_matches_hand_sums() {
    let c = vec![Rat::from_int(1), q(1, 2)];
    let s = ints(&[1, 2, 3, 4]);
    // zero history: r[0] = 1, r[t] = s[t] + s[t-1]/2
    let r = analysis_filter(&c, &s, false).unwrap();
    assert_val(&r[0], 1, 1);
    assert_val(&r[1], 5, 2);
    assert_val(&r[2], 4, 1);
    assert_val(&r[3], 11, 2);
    // wrapped: r[0] sees s[3] through the wraparound
    let rw = analysis_filter(&c, &s, true).unwrap();
    assert_val(&rw[0], 3, 1);
    assert_val(&rw[1], 5, 2);
}

#[test]
fn filters_reject_bad_coefficient_lengths() {
    let s = ints(&[1, 2]);
    let none: Vec<Rat> = Vec::new();
    assert_eq!(analysis_filter(&none, &s, false).unwrap_err(), LpcError::InvalidArgument);
    let long = ints(&[1, 0, 0]);
    assert_eq!(synthesis_filter(&long, &s, true).unwrap_err(), LpcError::InvalidArgument);
}

#[test]
fn zero_history_round_trip_reconstructs_exactly() {
    let c = vec![Rat::from_int(1), q(1, 2), q(-1, 3)];
    let s = ints(&[1, 2, 3, 4, 5, 6, 7, 8]);
    let r = analysis_filter(&c, &s, false).unwrap();
    let out = synthesis_filter(&c, &r, false).unwrap();
    assert_eq!(out.len(), s.len());
    for t in 0..s.len() {
        assert!(out[t].eq_rat(&s[t]), "sample {} differs", t);
    }
}

#[test]
fn wrapped_one_pass_synthesis_is_not_the_inverse() {
    let c = ints(&[1, 1]);
    let s = ints(&[1, 2]);
    let r = analysis_filter(&c, &s, true).unwrap();
    assert_val(&r[0], 3, 1);
    assert_val(&r[1], 3, 1);
    let out = synthesis_filter(&c, &r, true).unwrap();
    assert_val(&out[0], 0, 1);
    assert_val(&out[1], 3, 1);
}

#[test]
fn engine_round_trip_through_the_solved_model() {
    let mut lpc = Lpc::with_modes(2, true, false, false);
    let s = ints(&[1, 2, 0, -1, 3, 1, 0, 2]);
    lpc.calc(&s).unwrap();
    let coef = lpc.coef();
    assert_val(&coef[0], 1, 1);
    let mut residual = ints(&[0, 0, 0, 0, 0, 0, 0, 0]);
    lpc.prediction_error(&s, &mut residual).unwrap();
    let mut rebuilt = ints(&[0, 0, 0, 0, 0, 0, 0, 0]);
    lpc.inverse_prediction_error(&residual, &mut rebuilt).unwrap();
    for t in 0..s.len() {
        assert!(rebuilt[t].eq_rat(&s[t]), "sample {} differs", t);
    }
}

#[test]
fn engine_buffer_length_mismatch_is_rejected() {
    let mut lpc = Lpc::new(1);
    let s = ints(&[1, 2, 3]);
    lpc.calc(&s).unwrap();
    let mut short = ints(&[0]);
    assert_eq!(lpc.prediction_error(&s, &mut short).unwrap_err(), LpcError::InvalidArgument);
    assert_eq!(
        lpc.inverse_prediction_error(&s, &mut short).unwrap_err(),
        LpcError::InvalidArgument
    );
}

#[test]
fn engine_reorder_clears_the_model() {
    let mut lpc = Lpc::new(1);
    let s = ints(&[1, 2, 3]);
    lpc.calc(&s).unwrap();
    assert_eq!(lpc.coef().len(), 2);
    lpc.order(2);
    assert_eq!(lpc.coef().len(), 0);
    assert_eq!(lpc.error_energy().len(), 0);
    assert_eq!(lpc.autocorrelation().len(), 0);
}

#[test]
fn prediction_error_shrinks_for_a_sampled_wave() {
    // one period of a sampled wave, solved at order two: the final error
    // energy must fall below the zero-order energy (lag-zero power ratio)
    let s = ints(&[0, 4, 7, 9, 10, 9, 7, 3, -1, -5, -8, -10, -10, -8, -5, -2]);
    let mut lpc = Lpc::with_modes(2, true, false, true);
    lpc.calc(&s).unwrap();
    let power = lpc.autocorrelation()[0];
    let e2 = lpc.error_energy()[2];
    // the order-2 error energy falls strictly below the lag-zero power,
    // the error of the zero-order model
    assert!(e2.le(&power));
    assert!(!power.le(&e2), "no prediction gain: {}/{}", e2.num(), e2.den());
}

#[test]
fn envelope_dc_response_matches_the_coefficient_ratio() {
    // H(1) = B(1)/A(1) = 2 / (1 + 1) = 1, purely real
    let b = ints(&[2]);
    let a = ints(&[1, 1]);
    let points = vec![Cplx { re: Rat::from_int(1), im: Rat::from_int(0) }];
    let h = evaluate_envelope(&b, &a, &points).unwrap();
    assert_val(&h[0].re, 1, 1);
    assert_val(&h[0].im, 0, 1);
}

#[test]
fn envelope_quarter_turn_response() {
    // A(w) = w at w = j, so H = 1 / j = -j
    let b = ints(&[1]);
    let a = ints(&[0, 1]);
    let points = vec![Cplx { re: Rat::from_int(0), im: Rat::from_int(1) }];
    let h = evaluate_envelope(&b, &a, &points).unwrap();
    assert_val(&h[0].re, 0, 1);
    assert_val(&h[0].im, -1, 1);
}

#[test]
fn envelope_zero_denominator_is_degenerate() {
    let b = ints(&[1]);
    let a = ints(&[0]);
    let points = vec![Cplx { re: Rat::from_int(1), im: Rat::from_int(0) }];
    assert_eq!(evaluate_envelope(&b, &a, &points).unwrap_err(), LpcError::Degenerate);
}
