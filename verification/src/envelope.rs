//! Spectral envelope evaluation.
//!
//! The model's transfer function is a ratio of polynomials in the delay
//! variable; the evaluator computes `B(w) / A(w)` by Horner's rule at
//! caller-supplied complex points `w` (for the usual envelope, the points
//! `e^{j 2 pi k / n}` of the unit circle, which the caller quantizes to
//! rationals). The arithmetic is exact complex rational arithmetic; turning
//! the response into a log-magnitude is the caller's concern.

use vstd::prelude::*;
use crate::LpcError;
use crate::rat::{
    Qv, Rat, nq, nq_add, nq_div, nq_mul, nq_sub, q_add, q_div, q_eq, q_mul, q_raw, q_sub, q_wf,
    lemma_add_cong, lemma_div_cong, lemma_div_square, lemma_mul_cong, lemma_norm_idempotent,
    lemma_nq, lemma_nq_wf, lemma_nq_zero, lemma_q_eq_trans, lemma_q_raw_ops,
};
use crate::sums::{q_sum, seq_raw, seq_wf, views, lemma_q_sum_raw, lemma_q_sum_split_first};

verus! {

/// A complex number with exact rational parts.
#[derive(Clone, Copy, PartialEq, Eq, Structural, Debug)]
pub struct Cplx {
    pub re: Rat,
    pub im: Rat,
}

/// The model of a complex value: real and imaginary pairs.
pub open spec fn cview(z: Cplx) -> (Qv, Qv) {
    (z.re@, z.im@)
}

/// The models of a vector of complex values.
pub open spec fn cviews(v: Seq<Cplx>) -> Seq<(Qv, Qv)> {
    v.map_values(|z: Cplx| cview(z))
}

pub open spec fn c_wf(z: (Qv, Qv)) -> bool {
    q_wf(z.0) && q_wf(z.1)
}

/// Checked complex product, component chain in evaluation order.
pub open spec fn nc_mul(a: (Qv, Qv), b: (Qv, Qv)) -> Option<(Qv, Qv)> {
    match nq_mul(a.0, b.0) {
        Some(t1) => match nq_mul(a.1, b.1) {
            Some(t2) => match nq_sub(t1, t2) {
                Some(re) => match nq_mul(a.0, b.1) {
                    Some(t3) => match nq_mul(a.1, b.0) {
                        Some(t4) => match nq_add(t3, t4) {
                            Some(im) => Some((re, im)),
                            None => None,
                        },
                        None => None,
                    },
                    None => None,
                },
                None => None,
            },
            None => None,
        },
        None => None,
    }
}

/// Checked Horner evaluation of a real-coefficient polynomial at a complex
/// point: `poly(p, w) = p[0] + w * poly(p[1..], w)`, empty polynomial zero.
pub open spec fn poly_at(p: Seq<Qv>, w: (Qv, Qv)) -> Option<(Qv, Qv)>
    decreases p.len(),
{
    if p.len() == 0 {
        Some(((0int, 1int), (0int, 1int)))
    } else {
        match poly_at(p.skip(1), w) {
            Some(h) => match nc_mul(h, w) {
                Some(m) => match nq_add(m.0, p[0]) {
                    Some(re) => Some((re, m.1)),
                    None => None,
                },
                None => None,
            },
            None => None,
        }
    }
}

/// Outcome of evaluating the transfer function at one point.
pub enum EnvOut {
    /// The complex response.
    Val { h: (Qv, Qv) },
    /// The denominator polynomial vanished at the point.
    Degenerate,
    /// A reduced intermediate no longer fits the representation.
    Overflow,
}

/// The checked response `B(w) / A(w)` at one point, in evaluation order:
/// both polynomials, the squared magnitude of the denominator value, the
/// zero test, then the two components of the quotient.
pub open spec fn env_at(b: Seq<Qv>, a: Seq<Qv>, w: (Qv, Qv)) -> EnvOut {
    match poly_at(b, w) {
        None => EnvOut::Overflow,
        Some(bv) => match poly_at(a, w) {
            None => EnvOut::Overflow,
            Some(av) => match nq_mul(av.0, av.0) {
                None => EnvOut::Overflow,
                Some(d1) => match nq_mul(av.1, av.1) {
                    None => EnvOut::Overflow,
                    Some(d2) => match nq_add(d1, d2) {
                        None => EnvOut::Overflow,
                        Some(d) => if d.0 == 0 {
                            EnvOut::Degenerate
                        } else {
                            match nq_mul(bv.0, av.0) {
                                None => EnvOut::Overflow,
                                Some(r1) => match nq_mul(bv.1, av.1) {
                                    None => EnvOut::Overflow,
                                    Some(r2) => match nq_add(r1, r2) {
                                        None => EnvOut::Overflow,
                                        Some(rn) => match nq_div(rn, d) {
                                            None => EnvOut::Overflow,
                                            Some(re) => match nq_mul(bv.1, av.0) {
                                                None => EnvOut::Overflow,
                                                Some(i1) => match nq_mul(bv.0, av.1) {
                                                    None => EnvOut::Overflow,
                                                    Some(i2) => match nq_sub(i1, i2) {
                                                        None => EnvOut::Overflow,
                                                        Some(inum) => match nq_div(inum, d) {
                                                            None => EnvOut::Overflow,
                                                            Some(im) => EnvOut::Val {
                                                                h: (re, im),
                                                            },
                                                        },
                                                    },
                                                },
                                            },
                                        },
                                    },
                                },
                            }
                        },
                    },
                },
            },
        },
    }
}

/// Checked complex product of stored values.
fn cmul(a: &Cplx, b: &Cplx) -> (r: Option<Cplx>)
    requires
        c_wf(cview(*a)),
        c_wf(cview(*b)),
    ensures
        match r {
            Some(v) => nc_mul(cview(*a), cview(*b)) == Some(cview(v)) && c_wf(cview(v)),
            None => nc_mul(cview(*a), cview(*b)) is None,
        },
{
    let t1 = match a.re.mul(&b.re) {
        Some(v) => v,
        None => {
            return None;
        },
    };
    let t2 = match a.im.mul(&b.im) {
        Some(v) => v,
        None => {
            return None;
        },
    };
    let re = match t1.sub(&t2) {
        Some(v) => v,
        None => {
            return None;
        },
    };
    let t3 = match a.re.mul(&b.im) {
        Some(v) => v,
        None => {
            return None;
        },
    };
    let t4 = match a.im.mul(&b.re) {
        Some(v) => v,
        None => {
            return None;
        },
    };
    match t3.add(&t4) {
        Some(im) => Some(Cplx { re, im }),
        None => None,
    }
}

/// Checked Horner evaluation of a stored polynomial at a stored point.
fn poly_eval(p: &Vec<Rat>, w: &Cplx) -> (r: Option<Cplx>)
    requires
        seq_wf(views(p@)),
        c_wf(cview(*w)),
    ensures
        match r {
            Some(v) => poly_at(views(p@), cview(*w)) == Some(cview(v)) && c_wf(cview(v)),
            None => poly_at(views(p@), cview(*w)) is None,
        },
{
    let ghost sp = views(p@);
    assert(forall|i: int| 0 <= i < sp.len() ==> #[trigger] sp[i] == p@[i]@ && q_wf(sp[i]));
    let zero = Rat::from_int(0);
    let mut acc = Cplx { re: zero, im: zero };
    let mut i = p.len();
    assert(sp.skip(i as int) =~= Seq::<Qv>::empty());
    while i > 0
        invariant
            sp == views(p@),
            forall|t: int| 0 <= t < sp.len() ==> #[trigger] sp[t] == p@[t]@ && q_wf(sp[t]),
            c_wf(cview(*w)),
            i <= p@.len(),
            c_wf(cview(acc)),
            poly_at(sp.skip(i as int), cview(*w)) == Some(cview(acc)),
        decreases i,
    {
        i = i - 1;
        assert(sp.skip(i as int).skip(1) =~= sp.skip(i as int + 1));
        assert(sp.skip(i as int)[0] == sp[i as int]);
        let m = match cmul(&acc, w) {
            Some(v) => v,
            None => {
                proof {
                    lemma_poly_prefix_none(sp, cview(*w), i as int);
                }
                return None;
            },
        };
        let re = match m.re.add(&p[i]) {
            Some(v) => v,
            None => {
                proof {
                    lemma_poly_prefix_none(sp, cview(*w), i as int);
                }
                return None;
            },
        };
        acc = Cplx { re, im: m.im };
    }
    assert(sp.skip(0) =~= sp);
    Some(acc)
}

/// A failed Horner tail fails the whole evaluation.
proof fn lemma_poly_prefix_none(p: Seq<Qv>, w: (Qv, Qv), i: int)
    requires
        0 <= i <= p.len(),
        poly_at(p.skip(i), w) is None,
    ensures
        poly_at(p, w) is None,
    decreases i,
{
    if i > 0 {
        assert(p.skip(i - 1).skip(1) =~= p.skip(i));
        assert(p.skip(i - 1).len() > 0);
        lemma_poly_prefix_none(p, w, i - 1);
    } else {
        assert(p.skip(0) =~= p);
    }
}

/// Evaluate the transfer function `B(w) / A(w)` at each given point.
///
/// `Degenerate` when the denominator polynomial vanishes at some point,
/// `Overflow` when a reduced intermediate no longer fits; otherwise one
/// complex response per point, exactly as `env_at` says.
pub fn evaluate_envelope(b: &Vec<Rat>, a: &Vec<Rat>, points: &Vec<Cplx>) -> (r: Result<
    Vec<Cplx>,
    LpcError,
>)
    requires
        seq_wf(views(b@)),
        seq_wf(views(a@)),
        forall|k: int| 0 <= k < points@.len() ==> c_wf(#[trigger] cview(points@[k])),
    ensures
        match r {
            Ok(out) => {
                &&& out@.len() == points@.len()
                &&& forall|k: int|
                    0 <= k < points@.len() ==> env_at(views(b@), views(a@), cview(points@[k]))
                        == (EnvOut::Val { h: #[trigger] cviews(out@)[k] })
            },
            Err(e) => {
                &&& e != LpcError::InvalidArgument
                &&& e == LpcError::Degenerate ==> exists|k: int|
                    0 <= k < points@.len() && #[trigger] env_at(
                        views(b@),
                        views(a@),
                        cview(points@[k]),
                    ) == EnvOut::Degenerate
                &&& e == LpcError::Overflow ==> exists|k: int|
                    0 <= k < points@.len() && #[trigger] env_at(
                        views(b@),
                        views(a@),
                        cview(points@[k]),
                    ) == EnvOut::Overflow
            },
        },
{
    let ghost sb = views(b@);
    let ghost sa = views(a@);
    let mut out: Vec<Cplx> = Vec::new();
    let mut k: usize = 0;
    while k < points.len()
        invariant
            sb == views(b@),
            sa == views(a@),
            seq_wf(sb),
            seq_wf(sa),
            forall|t: int| 0 <= t < points@.len() ==> c_wf(#[trigger] cview(points@[t])),
            k <= points@.len(),
            out@.len() == k,
            forall|t: int|
                0 <= t < k ==> env_at(sb, sa, cview(points@[t])) == (EnvOut::Val {
                    h: #[trigger] cview(out@[t]),
                }),
        decreases points@.len() - k,
    {
        let w = points[k];
        let bv = match poly_eval(b, &w) {
            Some(v) => v,
            None => {
                assert(env_at(sb, sa, cview(points@[k as int])) == EnvOut::Overflow);
                return Err(LpcError::Overflow);
            },
        };
        let av = match poly_eval(a, &w) {
            Some(v) => v,
            None => {
                assert(env_at(sb, sa, cview(points@[k as int])) == EnvOut::Overflow);
                return Err(LpcError::Overflow);
            },
        };
        let d1 = match av.re.mul(&av.re) {
            Some(v) => v,
            None => {
                assert(env_at(sb, sa, cview(points@[k as int])) == EnvOut::Overflow);
                return Err(LpcError::Overflow);
            },
        };
        let d2 = match av.im.mul(&av.im) {
            Some(v) => v,
            None => {
                assert(env_at(sb, sa, cview(points@[k as int])) == EnvOut::Overflow);
                return Err(LpcError::Overflow);
            },
        };
        let d = match d1.add(&d2) {
            Some(v) => v,
            None => {
                assert(env_at(sb, sa, cview(points@[k as int])) == EnvOut::Overflow);
                return Err(LpcError::Overflow);
            },
        };
        if d.is_zero() {
            assert(env_at(sb, sa, cview(points@[k as int])) == EnvOut::Degenerate);
            return Err(LpcError::Degenerate);
        }
        let r1 = match bv.re.mul(&av.re) {
            Some(v) => v,
            None => {
                assert(env_at(sb, sa, cview(points@[k as int])) == EnvOut::Overflow);
                return Err(LpcError::Overflow);
            },
        };
        let r2 = match bv.im.mul(&av.im) {
            Some(v) => v,
            None => {
                assert(env_at(sb, sa, cview(points@[k as int])) == EnvOut::Overflow);
                return Err(LpcError::Overflow);
            },
        };
        let rn = match r1.add(&r2) {
            Some(v) => v,
            None => {
                assert(env_at(sb, sa, cview(points@[k as int])) == EnvOut::Overflow);
                return Err(LpcError::Overflow);
            },
        };
        let re = match rn.div(&d) {
            Some(v) => v,
            None => {
                assert(env_at(sb, sa, cview(points@[k as int])) == EnvOut::Overflow);
                return Err(LpcError::Overflow);
            },
        };
        let i1 = match bv.im.mul(&av.re) {
            Some(v) => v,
            None => {
                assert(env_at(sb, sa, cview(points@[k as int])) == EnvOut::Overflow);
                return Err(LpcError::Overflow);
            },
        };
        let i2 = match bv.re.mul(&av.im) {
            Some(v) => v,
            None => {
                assert(env_at(sb, sa, cview(points@[k as int])) == EnvOut::Overflow);
                return Err(LpcError::Overflow);
            },
        };
        let inum = match i1.sub(&i2) {
            Some(v) => v,
            None => {
                assert(env_at(sb, sa, cview(points@[k as int])) == EnvOut::Overflow);
                return Err(LpcError::Overflow);
            },
        };
        let im = match inum.div(&d) {
            Some(v) => v,
            None => {
                assert(env_at(sb, sa, cview(points@[k as int])) == EnvOut::Overflow);
                return Err(LpcError::Overflow);
            },
        };
        let h = Cplx { re, im };
        assert(env_at(sb, sa, cview(points@[k as int])) == (EnvOut::Val { h: cview(h) }));
        out.push(h);
        k = k + 1;
    }
    proof {
        assert forall|t: int| 0 <= t < points@.len() implies env_at(
            sb,
            sa,
            cview(points@[t]),
        ) == (EnvOut::Val { h: #[trigger] cviews(out@)[t] }) by {
            assert(cviews(out@)[t] == cview(out@[t]));
        }
    }
    Ok(out)
}


proof fn lemma_unit_scalars(x0: int, x1: int)
    by (nonlinear_arith)
    ensures
        x0 * 1 == x0,
        x1 * 1 == x1,
        1int * x0 == x0,
        1int * x1 == x1,
        x0 * 0 == 0,
        x1 * 0 == 0,
        0int * x0 == 0,
        0int * x1 == 0,
        x0 * 1 - 0int * x1 == x0,
        0int * x1 + x0 * 1 == x0,
        x0 * x1 == x1 * x0,
        x1 >= 1 ==> x1 * x1 >= 1,
        x0 != 0 ==> x0 * x0 >= 1,
        x0 * x0 >= 0,
{
}

/// At the point one, Horner evaluation of a real polynomial is the exact
/// sum of its coefficients, with an exactly zero imaginary part.
proof fn lemma_poly_at_unit(p: Seq<Qv>)
    requires
        seq_wf(p),
    ensures
        poly_at(p, ((1int, 1int), (0int, 1int))) matches Some(v) ==> q_wf(v.0) && q_wf(v.1)
            && v.1.0 == 0 && q_eq(v.0, q_sum(p)),
    decreases p.len(),
{
    let w1 = ((1int, 1int), (0int, 1int));
    if p.len() == 0 {
    } else if poly_at(p, w1) is Some {
        let rest = p.skip(1);
        assert(seq_wf(rest));
        lemma_poly_at_unit(rest);
        let h = poly_at(rest, w1)->0;
        assert(seq_raw(p)) by {
            assert(forall|i: int| 0 <= i < p.len() ==> q_raw(#[trigger] p[i]));
        }
        assert(seq_raw(rest));
        lemma_q_sum_raw(rest);
        lemma_unit_scalars(h.0.0, h.0.1);
        lemma_unit_scalars(h.1.0, h.1.1);
        // the four products of the complex multiplication by one
        assert(q_mul(h.0, (1int, 1int)) == ((h.0.0, h.0.1)));
        assert((h.0.0, h.0.1) == h.0);
        lemma_nq_wf(h.0);
        let t1 = crate::rat::q_norm(h.0);
        assert(nq_mul(h.0, (1int, 1int)) == Some(t1));
        assert(q_mul(h.1, (0int, 1int)) == ((0int, h.1.1)));
        lemma_nq_zero(h.1.1);
        assert(nq_mul(h.1, (0int, 1int)) == Some((0int, 1int)));
        lemma_unit_scalars(t1.0, t1.1);
        assert(q_sub(t1, (0int, 1int)) == ((t1.0, t1.1)));
        assert((t1.0, t1.1) == t1);
        lemma_norm_idempotent(h.0);
        assert(nq(t1) == Some(t1)) by {
            lemma_nq_wf(t1);
        }
        assert(nq_sub(t1, (0int, 1int)) == Some(t1));
        assert(q_mul(h.0, (0int, 1int)) == ((0int, h.0.1)));
        lemma_nq_zero(h.0.1);
        assert(q_mul(h.1, (1int, 1int)) == ((h.1.0, h.1.1)));
        assert((h.1.0, h.1.1) == h.1);
        assert(h.1 == ((0int, h.1.1)));
        assert(nq_mul(h.1, (1int, 1int)) == Some((0int, 1int)));
        lemma_unit_scalars(0, 1);
        assert(q_add((0int, 1int), (0int, 1int)) == ((0int * 1 + 0 * 1, 1int * 1)));
        assert(0int * 1 + 0 * 1 == 0 && 1int * 1 == 1) by (nonlinear_arith);
        lemma_nq_zero(1);
        assert(nc_mul(h, w1) == Some((t1, (0int, 1int))));
        // the real part accumulates the head coefficient
        let re = nq_add(t1, p[0])->0;
        lemma_q_raw_ops(t1, p[0]);
        lemma_nq(q_add(t1, p[0]));
        lemma_add_cong(t1, h.0, p[0], p[0]);
        lemma_q_raw_ops(h.0, p[0]);
        lemma_q_eq_trans(re, q_add(t1, p[0]), q_add(h.0, p[0]));
        lemma_add_cong(h.0, q_sum(rest), p[0], p[0]);
        lemma_q_raw_ops(q_sum(rest), p[0]);
        lemma_q_eq_trans(re, q_add(h.0, p[0]), q_add(q_sum(rest), p[0]));
        lemma_unit_scalars(q_sum(rest).1, p[0].1);
        assert(q_add(q_sum(rest), p[0]) == q_add(p[0], q_sum(rest)));
        lemma_q_sum_split_first(p);
        lemma_q_raw_ops(p[0], q_sum(rest));
        lemma_q_sum_raw(p);
        lemma_q_eq_trans(re, q_add(p[0], q_sum(rest)), q_sum(p));
    }
}

/// At the unit point the response is the ratio of coefficient sums: the
/// model's gain at zero frequency is `B(1) / A(1)`, with an exactly zero
/// imaginary part, and the denominator sum is then known nonzero. For the
/// usual single-coefficient numerator, `B(1)` is that gain coefficient.
pub proof fn lemma_dc_response(b: Seq<Qv>, a: Seq<Qv>)
    requires
        seq_wf(b),
        seq_wf(a),
        env_at(b, a, ((1int, 1int), (0int, 1int))) is Val,
    ensures
        env_at(b, a, ((1int, 1int), (0int, 1int))) matches EnvOut::Val { h } ==> {
            &&& q_sum(a).0 != 0
            &&& q_eq(h.0, q_div(q_sum(b), q_sum(a)))
            &&& h.1.0 == 0
        },
{
    let w1 = ((1int, 1int), (0int, 1int));
    lemma_poly_at_unit(b);
    lemma_poly_at_unit(a);
    let bv = poly_at(b, w1)->0;
    let av = poly_at(a, w1)->0;
    assert(seq_raw(a)) by {
        assert(forall|i: int| 0 <= i < a.len() ==> q_raw(#[trigger] a[i]));
    }
    assert(seq_raw(b)) by {
        assert(forall|i: int| 0 <= i < b.len() ==> q_raw(#[trigger] b[i]));
    }
    lemma_q_sum_raw(a);
    lemma_q_sum_raw(b);
    // the squared-magnitude denominator reduces to the square of the real part
    lemma_unit_scalars(av.1.0, av.1.1);
    assert(q_mul(av.1, av.1) == ((av.1.0 * av.1.0, av.1.1 * av.1.1)));
    assert(av.1.0 * av.1.0 == 0 && av.1.1 * av.1.1 >= 1) by (nonlinear_arith)
        requires
            av.1.0 == 0,
            av.1.1 >= 1,
    ;
    lemma_nq_zero(av.1.1 * av.1.1);
    assert(nq_mul(av.1, av.1) == Some((0int, 1int)));
    let d1r = q_mul(av.0, av.0);
    lemma_q_raw_ops(av.0, av.0);
    lemma_nq(d1r);
    let d1 = nq_mul(av.0, av.0)->0;
    lemma_unit_scalars(d1.0, d1.1);
    assert(q_add(d1, (0int, 1int)) == ((d1.0 * 1 + 0 * d1.1, d1.1 * 1)));
    assert(d1.0 * 1 + 0 * d1.1 == d1.0 && d1.1 * 1 == d1.1) by (nonlinear_arith);
    assert(q_add(d1, (0int, 1int)) == ((d1.0, d1.1)));
    assert((d1.0, d1.1) == d1);
    lemma_norm_idempotent(d1r);
    lemma_nq_wf(d1);
    assert(nq_add(d1, (0int, 1int)) == Some(d1));
    let d = d1;
    assert(env_at(b, a, w1) is Val ==> d.0 != 0);
    // the nonzero reduced square pins the signs down
    assert(d1r.0 == av.0.0 * av.0.0);
    assert(av.0.0 != 0) by {
        if av.0.0 == 0 {
            assert(d1r.0 == 0) by (nonlinear_arith)
                requires
                    d1r.0 == av.0.0 * av.0.0,
                    av.0.0 == 0,
            ;
            assert(d.0 == 0);
        }
    }
    // real part: (bv.0 * av.0) / d  ~  sum(b) / sum(a)
    let r1r = q_mul(bv.0, av.0);
    lemma_q_raw_ops(bv.0, av.0);
    lemma_nq(r1r);
    let r1 = nq_mul(bv.0, av.0)->0;
    lemma_unit_scalars(bv.1.0, bv.1.1);
    assert(q_mul(bv.1, av.1) == ((bv.1.0 * av.1.0, bv.1.1 * av.1.1)));
    assert(bv.1.0 * av.1.0 == 0 && bv.1.1 * av.1.1 >= 1) by (nonlinear_arith)
        requires
            bv.1.0 == 0,
            bv.1.1 >= 1,
            av.1.1 >= 1,
    ;
    lemma_nq_zero(bv.1.1 * av.1.1);
    assert(nq_mul(bv.1, av.1) == Some((0int, 1int)));
    lemma_unit_scalars(r1.0, r1.1);
    assert(q_add(r1, (0int, 1int)) == ((r1.0 * 1 + 0 * r1.1, r1.1 * 1)));
    assert(r1.0 * 1 + 0 * r1.1 == r1.0 && r1.1 * 1 == r1.1) by (nonlinear_arith);
    assert(q_add(r1, (0int, 1int)) == ((r1.0, r1.1)));
    assert((r1.0, r1.1) == r1);
    lemma_norm_idempotent(r1r);
    lemma_nq_wf(r1);
    assert(nq_add(r1, (0int, 1int)) == Some(r1));
    match env_at(b, a, w1) {
        EnvOut::Val { h } => {
            let re = h.0;
            assert(nq_div(r1, d) == Some(re));
            let rawq = q_div(r1, d);
            assert(q_raw(rawq)) by {
                crate::rat::lemma_q_raw_ops(r1, d);
            }
            lemma_nq(rawq);
            // congruence down to the exact quotient of products
            lemma_div_cong(r1, r1r, d, d1r);
            lemma_div_square(bv.0, av.0);
            lemma_q_eq_trans(re, rawq, q_div(r1r, d1r));
            lemma_q_raw_ops(r1r, d1r);
            lemma_q_eq_trans(re, q_div(r1r, d1r), q_div(bv.0, av.0));
            // and from the Horner values to the coefficient sums
            assert(q_sum(a).0 != 0) by (nonlinear_arith)
                requires
                    q_eq(av.0, q_sum(a)),
                    av.0.0 != 0,
                    q_sum(a).1 >= 1,
                    av.0.1 >= 1,
            ;
            lemma_div_cong(bv.0, q_sum(b), av.0, q_sum(a));
            lemma_q_raw_ops(bv.0, av.0);
            lemma_q_raw_ops(q_sum(b), q_sum(a));
            lemma_q_eq_trans(re, q_div(bv.0, av.0), q_div(q_sum(b), q_sum(a)));
            // imaginary part: both cross products vanish
            lemma_unit_scalars(av.0.0, av.0.1);
            assert(q_mul(bv.1, av.0) == ((bv.1.0 * av.0.0, bv.1.1 * av.0.1)));
            assert(bv.1.0 * av.0.0 == 0 && bv.1.1 * av.0.1 >= 1) by (nonlinear_arith)
                requires
                    bv.1.0 == 0,
                    bv.1.1 >= 1,
                    av.0.1 >= 1,
            ;
            lemma_nq_zero(bv.1.1 * av.0.1);
            assert(nq_mul(bv.1, av.0) == Some((0int, 1int)));
            assert(q_mul(bv.0, av.1) == ((bv.0.0 * av.1.0, bv.0.1 * av.1.1)));
            assert(bv.0.0 * av.1.0 == 0 && bv.0.1 * av.1.1 >= 1) by (nonlinear_arith)
                requires
                    av.1.0 == 0,
                    bv.0.1 >= 1,
                    av.1.1 >= 1,
            ;
            lemma_nq_zero(bv.0.1 * av.1.1);
            assert(nq_mul(bv.0, av.1) == Some((0int, 1int)));
            assert(q_sub((0int, 1int), (0int, 1int)) == ((0int * 1 - 0 * 1, 1int * 1)));
            assert(0int * 1 - 0 * 1 == 0 && 1int * 1 == 1) by (nonlinear_arith);
            lemma_nq_zero(1);
            assert(nq_sub((0int, 1int), (0int, 1int)) == Some((0int, 1int)));
            // 0 / d keeps a zero numerator whatever the sign of d
            lemma_nq_wf(d);
            assert(d.0 > 0) by {
                assert(d1r.0 >= 0) by (nonlinear_arith)
                    requires
                        d1r.0 == av.0.0 * av.0.0,
                ;
                assert(!(d.0 < 0));
            }
            assert(q_div((0int, 1int), d) == ((0int * d.1, 1int * d.0)));
            assert(0int * d.1 == 0 && 1int * d.0 == d.0) by (nonlinear_arith);
            lemma_nq_zero(d.0);
            assert(nq_div((0int, 1int), d) == Some((0int, 1int)));
            assert(h.1 == ((0int, 1int)));
        },
        _ => {},
    }
}

} // verus!
