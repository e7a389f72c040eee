//! Exact rational numbers backed by `i64` numerator and denominator.
//!
//! The ghost model of a rational is a pair `(int, int)` of mathematical
//! integers, numerator first, with a positive denominator. Equality of
//! rationals is cross-multiplication (`q_eq`), so the model never needs to
//! be in lowest terms. The executable type keeps every stored value reduced
//! by the greatest common divisor so that values stay small; an operation
//! whose reduced result would leave the `i64` range returns `None`.

use vstd::prelude::*;
use vstd::arithmetic::div_mod::*;

verus! {

/// Largest magnitude a stored numerator may have, and largest denominator.
pub const BOUND: i64 = 0x7fff_ffff_ffff_ffff;

/// Ghost model of a rational: numerator and denominator as mathematical ints.
pub type Qv = (int, int);

/// Absolute value of a mathematical integer.
pub open spec fn abs_i(x: int) -> int {
    if x < 0 { -x } else { x }
}

/// The denominator is positive: the minimum for a pair to denote a rational.
pub open spec fn q_raw(x: Qv) -> bool {
    1 <= x.1
}

/// The pair denotes a rational and fits the stored representation.
pub open spec fn q_wf(x: Qv) -> bool {
    1 <= x.1 <= BOUND && -BOUND <= x.0 <= BOUND
}

/// Value equality of two rationals, by cross-multiplication.
pub open spec fn q_eq(a: Qv, b: Qv) -> bool {
    a.0 * b.1 == b.0 * a.1
}

/// `a <= b` as rationals; meaningful when both denominators are positive.
pub open spec fn q_le(a: Qv, b: Qv) -> bool {
    a.0 * b.1 <= b.0 * a.1
}

pub open spec fn q_add(a: Qv, b: Qv) -> Qv {
    (a.0 * b.1 + b.0 * a.1, a.1 * b.1)
}

pub open spec fn q_sub(a: Qv, b: Qv) -> Qv {
    (a.0 * b.1 - b.0 * a.1, a.1 * b.1)
}

pub open spec fn q_mul(a: Qv, b: Qv) -> Qv {
    (a.0 * b.0, a.1 * b.1)
}

pub open spec fn q_neg(a: Qv) -> Qv {
    (-a.0, a.1)
}

pub open spec fn q_abs(a: Qv) -> Qv {
    (abs_i(a.0), a.1)
}

/// Exact quotient `a / b`, with the sign moved into the numerator so that
/// the resulting denominator stays positive. Meaningful when `b.0 != 0`.
pub open spec fn q_div(a: Qv, b: Qv) -> Qv {
    if b.0 >= 0 {
        (a.0 * b.1, a.1 * b.0)
    } else {
        (-(a.0 * b.1), a.1 * (-b.0))
    }
}

/// Greatest common divisor by Euclid's recursion; `gcd(a, 0) == a`.
pub open spec fn gcd(a: nat, b: nat) -> nat
    decreases b,
{
    if b == 0 { a } else { gcd(b, a % b) }
}

/// The pair `x` divided through by the greatest common divisor of its parts.
pub open spec fn q_norm(x: Qv) -> Qv {
    let g = gcd(abs_i(x.0) as nat, x.1 as nat) as int;
    (x.0 / g, x.1 / g)
}

/// Reduce, then keep the result only if it fits the representation: the
/// model of every checked operation on stored rationals.
pub open spec fn nq(x: Qv) -> Option<Qv> {
    let y = q_norm(x);
    if q_wf(y) { Some(y) } else { None }
}

pub open spec fn nq_add(a: Qv, b: Qv) -> Option<Qv> {
    nq(q_add(a, b))
}

pub open spec fn nq_sub(a: Qv, b: Qv) -> Option<Qv> {
    nq(q_sub(a, b))
}

pub open spec fn nq_mul(a: Qv, b: Qv) -> Option<Qv> {
    nq(q_mul(a, b))
}

pub open spec fn nq_div(a: Qv, b: Qv) -> Option<Qv> {
    nq(q_div(a, b))
}

/// An exact rational number; always stored reduced with positive denominator.
#[derive(Clone, Copy, PartialEq, Eq, Structural, Debug)]
pub struct Rat {
    num: i64,
    den: i64,
}

impl View for Rat {
    type V = Qv;

    closed spec fn view(&self) -> Qv {
        (self.num as int, self.den as int)
    }
}

/// The model of an optional rational result.
pub open spec fn opt_v(r: Option<Rat>) -> Option<Qv> {
    match r {
        Some(v) => Some(v@),
        None => None,
    }
}

proof fn lemma_gcd_pos(a: nat, b: nat)
    requires
        b > 0,
    ensures
        gcd(a, b) > 0,
    decreases b,
{
    let r = a % b;
    if r == 0 {
        assert(gcd(a, b) == gcd(b, 0));
    } else {
        lemma_gcd_pos(b, r);
    }
}

/// Euclid's recursion yields a common divisor of both arguments.
proof fn lemma_gcd_divides(a: nat, b: nat)
    requires
        b > 0,
    ensures
        gcd(a, b) > 0,
        a % gcd(a, b) == 0,
        b % gcd(a, b) == 0,
    decreases b,
{
    lemma_gcd_pos(a, b);
    let r = a % b;
    if r == 0 {
        assert(gcd(a, b) == gcd(b, 0));
        assert(gcd(a, b) == b);
        lemma_fundamental_div_mod(a as int, b as int);
        assert(a as int == b * (a as int / b as int));
        lemma_exact_div(a as int, b as int);
    } else {
        lemma_gcd_divides(b, r);
        let g = gcd(b, r);
        assert(gcd(a, b) == g);
        lemma_fundamental_div_mod(a as int, b as int);
        let q = a as int / b as int;
        assert(a as int == b * q + r);
        lemma_exact_div(b as int, g as int);
        lemma_exact_div(r as int, g as int);
        let mb = b as int / g as int;
        let mr = r as int / g as int;
        assert(a as int == g * (mb * q + mr)) by (nonlinear_arith)
            requires
                a as int == b * q + r,
                b as int == g * mb,
                r as int == g * mr,
        ;
        assert(mb * q + mr >= 0) by (nonlinear_arith)
            requires
                a as int == g * (mb * q + mr),
                a >= 0,
                g > 0,
        ;
        assert(a as int == (mb * q + mr) * g + 0) by (nonlinear_arith)
            requires
                a as int == g * (mb * q + mr),
        ;
        lemma_fundamental_div_mod_converse(a as int, g as int, mb * q + mr, 0);
    }
}

/// Exact division: when the remainder is zero the quotient recomposes.
proof fn lemma_exact_div(x: int, g: int)
    requires
        g > 0,
        x % g == 0,
    ensures
        g * (x / g) == x,
{
    lemma_fundamental_div_mod(x, g);
}

/// A negative multiple divides like its magnitude, with the sign flipped.
proof fn lemma_exact_div_signed(x: int, g: int)
    requires
        g > 0,
        x < 0,
        (-x) % g == 0,
    ensures
        x % g == 0,
        x / g == -((-x) / g),
{
    lemma_exact_div(-x, g);
    let m = (-x) / g;
    assert(m >= 0) by (nonlinear_arith)
        requires
            g * m == -x,
            -x > 0,
            g > 0,
    ;
    assert(x == g * (-m) + 0) by (nonlinear_arith)
        requires
            g * m == -x,
    ;
    assert(x == (-m) * g + 0) by (nonlinear_arith)
        requires
            x == g * (-m) + 0,
    ;
    lemma_fundamental_div_mod_converse(x, g, -m, 0);
}

/// Scaling both arguments scales the greatest common divisor.
proof fn lemma_gcd_scale(k: nat, a: nat, b: nat)
    requires
        k > 0,
    ensures
        gcd(k * a, k * b) == k * gcd(a, b),
    decreases b,
{
    if b == 0 {
        assert(k * b == 0);
        assert(gcd(k * a, 0) == k * a);
    } else {
        lemma_fundamental_div_mod(a as int, b as int);
        let q = a as int / b as int;
        let r = a % b;
        assert(q >= 0) by (nonlinear_arith)
            requires
                a as int == b * q + r,
                a >= 0,
                b > 0,
                0 <= r < b,
        ;
        assert(k * a == (k * b) * q + k * r) by (nonlinear_arith)
            requires
                a as int == b * q + r,
        ;
        assert(0 <= k * r < k * b) by (nonlinear_arith)
            requires
                0 <= r < b,
                k > 0,
        ;
        assert((k * a) as int == q * ((k * b) as int) + (k * r) as int) by (nonlinear_arith)
            requires
                k * a == (k * b) * q + k * r,
        ;
        lemma_fundamental_div_mod_converse((k * a) as int, (k * b) as int, q, (k * r) as int);
        assert((k * a) % (k * b) == k * r);
        assert(gcd(k * a, k * b) == gcd(k * b, k * r));
        lemma_gcd_scale(k, b, r);
        assert(gcd(a, b) == gcd(b, r));
    }
}

/// After dividing by the greatest common divisor nothing common is left.
proof fn lemma_gcd_reduced(a: nat, b: nat)
    requires
        b > 0,
    ensures
        gcd((a / gcd(a, b)) as nat, (b / gcd(a, b)) as nat) == 1,
{
    lemma_gcd_divides(a, b);
    let g = gcd(a, b);
    lemma_exact_div(a as int, g as int);
    lemma_exact_div(b as int, g as int);
    let ra = (a / g) as nat;
    let rb = (b / g) as nat;
    assert(a == g * ra && b == g * rb);
    lemma_gcd_scale(g, ra, rb);
    assert(g * gcd(ra, rb) == g * 1) by (nonlinear_arith)
        requires
            gcd(g * ra, g * rb) == g * gcd(ra, rb),
            gcd(g * ra, g * rb) == g,
            g > 0,
    ;
    assert(gcd(ra, rb) == 1) by (nonlinear_arith)
        requires
            g * gcd(ra, rb) == g * 1,
            g > 0,
    ;
}

/// What reduction does: it keeps the value, the sign, and positivity of the
/// denominator, and never grows a component.
pub proof fn lemma_norm(x: Qv)
    requires
        q_raw(x),
    ensures
        q_raw(q_norm(x)),
        q_norm(x).1 <= x.1,
        abs_i(q_norm(x).0) <= abs_i(x.0),
        q_eq(q_norm(x), x),
        q_norm(x).0 == 0 <==> x.0 == 0,
        q_norm(x).0 < 0 <==> x.0 < 0,
{
    let m = abs_i(x.0) as nat;
    let d = x.1 as nat;
    lemma_gcd_divides(m, d);
    let g = gcd(m, d) as int;
    lemma_exact_div(m as int, g);
    lemma_exact_div(d as int, g);
    let dd = x.1 / g;
    let mm = m as int / g;
    assert(dd >= 1) by (nonlinear_arith)
        requires
            g * dd == x.1,
            x.1 >= 1,
            g > 0,
    ;
    assert(dd <= x.1) by (nonlinear_arith)
        requires
            g * dd == x.1,
            g >= 1,
            dd >= 1,
    ;
    assert(mm >= 0 && mm <= m as int) by (nonlinear_arith)
        requires
            g * mm == m as int,
            m as int >= 0,
            g >= 1,
    ;
    assert(mm == 0 <==> m as int == 0) by (nonlinear_arith)
        requires
            g * mm == m as int,
            g >= 1,
            mm >= 0,
    ;
    if x.0 < 0 {
        lemma_exact_div_signed(x.0, g);
        assert(q_norm(x).0 == -mm);
        assert(g * (-mm) == x.0) by (nonlinear_arith)
            requires
                g * mm == m as int,
                x.0 == -(m as int),
        ;
    } else {
        assert(q_norm(x).0 == mm);
    }
    let y = q_norm(x);
    assert(g * y.0 == x.0);
    assert(y.0 * x.1 == x.0 * y.1) by (nonlinear_arith)
        requires
            x.1 == g * dd,
            y.1 == dd,
            g * y.0 == x.0,
    ;
}

/// A reduced pair is a fixed point of reduction, and reduction of any raw
/// pair lands on such a fixed point; stated over the parts for reuse.
pub proof fn lemma_norm_abs(x: Qv)
    requires
        q_raw(x),
    ensures
        abs_i(q_norm(x).0) == abs_i(x.0) / (gcd(abs_i(x.0) as nat, x.1 as nat) as int),
        q_norm(x).1 == x.1 / (gcd(abs_i(x.0) as nat, x.1 as nat) as int),
{
    let m = abs_i(x.0) as nat;
    let d = x.1 as nat;
    lemma_gcd_divides(m, d);
    let g = gcd(m, d) as int;
    lemma_exact_div(m as int, g);
    let mm = m as int / g;
    assert(mm >= 0) by (nonlinear_arith)
        requires
            g * mm == m as int,
            m as int >= 0,
            g >= 1,
    ;
    if x.0 < 0 {
        lemma_exact_div_signed(x.0, g);
    }
}

/// Reducing an already produced reduced pair changes nothing.
pub proof fn lemma_norm_idempotent(x: Qv)
    requires
        q_raw(x),
    ensures
        q_norm(q_norm(x)) == q_norm(x),
{
    let m = abs_i(x.0) as nat;
    let d = x.1 as nat;
    lemma_gcd_divides(m, d);
    lemma_gcd_reduced(m, d);
    lemma_norm(x);
    lemma_norm_abs(x);
    let g = gcd(m, d) as int;
    let y = q_norm(x);
    assert(abs_i(y.0) as nat == m / gcd(m, d));
    assert(y.1 as nat == d / gcd(m, d));
    assert(gcd(abs_i(y.0) as nat, y.1 as nat) == 1);
    assert(y.0 / 1 == y.0 && y.1 / 1 == y.1);
}

/// Transitivity of value equality (the shared denominator must be positive).
#[verifier::rlimit(10)]
pub proof fn lemma_q_eq_trans(a: Qv, b: Qv, c: Qv)
    by (nonlinear_arith)
    requires
        q_raw(a),
        q_raw(b),
        q_raw(c),
        q_eq(a, b),
        q_eq(b, c),
    ensures
        q_eq(a, c),
{
}

/// The raw arithmetic on pairs keeps denominators positive.
pub proof fn lemma_q_raw_ops(a: Qv, b: Qv)
    by (nonlinear_arith)
    requires
        q_raw(a),
        q_raw(b),
    ensures
        q_raw(q_add(a, b)),
        q_raw(q_sub(a, b)),
        q_raw(q_mul(a, b)),
        q_raw(q_neg(a)),
        q_raw(q_abs(a)),
        b.0 != 0 ==> q_raw(q_div(a, b)),
{
}

/// What a checked reduction returns: a stored-representable pair with the
/// same value, sign, and a component-wise no larger representation.
pub proof fn lemma_nq(x: Qv)
    requires
        q_raw(x),
    ensures
        nq(x) matches Some(y) ==> q_wf(y) && q_eq(y, x) && (y.0 == 0 <==> x.0 == 0) && (y.0 < 0
            <==> x.0 < 0),
        q_wf(q_norm(x)) ==> nq(x) == Some(q_norm(x)),
        !q_wf(q_norm(x)) ==> nq(x) is None,
{
    lemma_norm(x);
}

/// Bounds for the cross products of two absolute values, as the clamped
/// recursion's guard compares them.
pub proof fn lemma_abs_prod_bound(a: Qv, b: Qv)
    by (nonlinear_arith)
    requires
        0 <= a.0 <= BOUND,
        1 <= a.1 <= BOUND,
        0 <= b.0 <= BOUND,
        1 <= b.1 <= BOUND,
    ensures
        0 <= a.0 * b.1 <= 0x3fff_ffff_ffff_ffff_0000_0000_0000_0001,
        0 <= 2 * b.0 <= 0xffff_ffff_ffff_fffe,
        0 <= (2 * b.0) * a.1 <= 0x7fff_ffff_ffff_fffe_0000_0000_0000_0002,
{
}

proof fn lemma_pos_mul(a: int, b: int)
    by (nonlinear_arith)
    requires
        a >= 1,
        b >= 1,
    ensures
        a * b >= 1,
{
}

/// Addition respects value equality.
pub proof fn lemma_add_cong(a: Qv, a2: Qv, b: Qv, b2: Qv)
    requires
        q_raw(a),
        q_raw(a2),
        q_raw(b),
        q_raw(b2),
        q_eq(a, a2),
        q_eq(b, b2),
    ensures
        q_eq(q_add(a, b), q_add(a2, b2)),
        q_raw(q_add(a, b)),
{
    lemma_pos_mul(a.1, b.1);
    broadcast use vstd::arithmetic::mul::group_mul_properties;

    assert((a.0 * b.1 + b.0 * a.1) * (a2.1 * b2.1) == (a.0 * a2.1) * (b.1 * b2.1) + (b.0
        * b2.1) * (a.1 * a2.1));
    assert((a2.0 * b2.1 + b2.0 * a2.1) * (a.1 * b.1) == (a2.0 * a.1) * (b.1 * b2.1) + (b2.0
        * b.1) * (a.1 * a2.1));
}

/// Subtraction respects value equality.
pub proof fn lemma_sub_cong(a: Qv, a2: Qv, b: Qv, b2: Qv)
    requires
        q_raw(a),
        q_raw(a2),
        q_raw(b),
        q_raw(b2),
        q_eq(a, a2),
        q_eq(b, b2),
    ensures
        q_eq(q_sub(a, b), q_sub(a2, b2)),
        q_raw(q_sub(a, b)),
{
    lemma_pos_mul(a.1, b.1);
    broadcast use vstd::arithmetic::mul::group_mul_properties;

    assert((a.0 * b.1 - b.0 * a.1) * (a2.1 * b2.1) == (a.0 * a2.1) * (b.1 * b2.1) - (b.0
        * b2.1) * (a.1 * a2.1));
    assert((a2.0 * b2.1 - b2.0 * a2.1) * (a.1 * b.1) == (a2.0 * a.1) * (b.1 * b2.1) - (b2.0
        * b.1) * (a.1 * a2.1));
}

/// Multiplication respects value equality.
#[verifier::rlimit(10)]
pub proof fn lemma_mul_cong(a: Qv, a2: Qv, b: Qv, b2: Qv)
    by (nonlinear_arith)
    requires
        q_raw(a),
        q_raw(a2),
        q_raw(b),
        q_raw(b2),
        q_eq(a, a2),
        q_eq(b, b2),
    ensures
        q_eq(q_mul(a, b), q_mul(a2, b2)),
        q_raw(q_mul(a, b)),
{
}

/// Division respects value equality when both divisors are nonzero.
#[verifier::rlimit(10)]
pub proof fn lemma_div_cong(a: Qv, a2: Qv, b: Qv, b2: Qv)
    by (nonlinear_arith)
    requires
        q_raw(a),
        q_raw(a2),
        q_raw(b),
        q_raw(b2),
        q_eq(a, a2),
        q_eq(b, b2),
        b.0 != 0,
        b2.0 != 0,
    ensures
        q_eq(q_div(a, b), q_div(a2, b2)),
        q_raw(q_div(a, b)),
{
}

/// Ordering respects value equality.
#[verifier::rlimit(10)]
pub proof fn lemma_le_cong(a: Qv, a2: Qv, b: Qv, b2: Qv)
    by (nonlinear_arith)
    requires
        q_raw(a),
        q_raw(a2),
        q_raw(b),
        q_raw(b2),
        q_eq(a, a2),
        q_eq(b, b2),
        q_le(a, b),
    ensures
        q_le(a2, b2),
{
}

/// A pair that fits the representation still fits after reduction.
pub proof fn lemma_nq_wf(x: Qv)
    requires
        q_wf(x),
    ensures
        nq(x) == Some(q_norm(x)),
        q_eq(q_norm(x), x),
        q_norm(x).0 == 0 <==> x.0 == 0,
        q_norm(x).0 < 0 <==> x.0 < 0,
        q_wf(q_norm(x)),
{
    lemma_norm(x);
}

/// A zero numerator reduces to the canonical zero.
pub proof fn lemma_nq_zero(d: int)
    requires
        1 <= d,
    ensures
        q_norm((0int, d)) == (0int, 1int),
        nq((0int, d)) == Some((0int, 1int)),
{
    assert(abs_i(0) == 0);
    assert(gcd(0, d as nat) == gcd(d as nat, 0));
    assert((0 as nat) % (d as nat) == 0);
    assert(gcd(0, d as nat) == d);
    lemma_fundamental_div_mod_converse(0, d, 0, 0);
    lemma_fundamental_div_mod_converse(d, d, 1, 0);
}

/// Equal numerator and denominator magnitudes reduce to a unit.
pub proof fn lemma_nq_unit(x: int)
    requires
        1 <= x <= BOUND * BOUND,
    ensures
        q_norm((x, x)) == (1int, 1int),
        nq((x, x)) == Some((1int, 1int)),
        q_norm((-x, x)) == (-1int, 1int),
        nq((-x, x)) == Some((-1int, 1int)),
{
    assert((x as nat) % (x as nat) == 0) by (nonlinear_arith)
        requires
            x >= 1,
    ;
    assert(gcd(x as nat, x as nat) == gcd(x as nat, 0));
    assert(gcd(x as nat, x as nat) == x);
    lemma_fundamental_div_mod_converse(x, x, 1, 0);
    assert(x / x == 1);
    assert(abs_i(-x) == x);
    lemma_exact_div_signed(-x, x);
    assert((-x) / x == -1);
}

/// Reduction commutes with negation.
pub proof fn lemma_nq_neg(x: Qv)
    requires
        q_wf(x),
    ensures
        nq(q_neg(x)) == Some(q_neg(q_norm(x))),
        q_wf(q_neg(q_norm(x))),
        q_eq(q_neg(q_norm(x)), q_neg(x)),
{
    lemma_norm(x);
    lemma_norm(q_neg(x));
    let m = abs_i(x.0) as nat;
    let d = x.1 as nat;
    lemma_gcd_divides(m, d);
    let g = gcd(m, d) as int;
    assert(abs_i(q_neg(x).0) == abs_i(x.0));
    if x.0 == 0 {
        lemma_fundamental_div_mod_converse(0, g, 0, 0);
        assert(q_norm(q_neg(x)).0 == 0 && q_norm(x).0 == 0);
    } else if x.0 > 0 {
        lemma_exact_div(x.0, g);
        lemma_exact_div_signed(-x.0, g);
        assert(q_norm(q_neg(x)).0 == -(x.0 / g));
    } else {
        lemma_exact_div(-x.0, g);
        lemma_exact_div_signed(x.0, g);
        assert(q_norm(q_neg(x)).0 == (-x.0) / g);
        assert(q_norm(x).0 == -((-x.0) / g));
    }
    lemma_q_raw_ops(q_norm(x), q_norm(x));
    lemma_q_raw_ops(x, x);
}

/// Value equality carries over to absolute values.
pub proof fn lemma_abs_cong(a: Qv, b: Qv)
    by (nonlinear_arith)
    requires
        q_raw(a),
        q_raw(b),
        q_eq(a, b),
    ensures
        q_eq(q_abs(a), q_abs(b)),
{
}

/// The quotient of a bounded numerator by the energy keeps magnitude at
/// most two: the clamped recursion's unclamped branch.
pub proof fn lemma_div_bound(num: Qv, ek: Qv)
    by (nonlinear_arith)
    requires
        q_raw(num),
        q_raw(ek),
        ek.0 != 0,
        abs_i(num.0) * ek.1 <= 2 * abs_i(ek.0) * num.1,
    ensures
        q_le(q_abs(q_div(q_neg(num), ek)), (2int, 1int)),
        q_raw(q_div(q_neg(num), ek)),
{
}

/// A common factor in numerator and denominator of a quotient cancels:
/// `(x*y) / (y*y)` has the value `x / y`.
pub proof fn lemma_div_square(x: Qv, y: Qv)
    by (nonlinear_arith)
    requires
        q_raw(x),
        q_raw(y),
        y.0 != 0,
    ensures
        q_eq(q_div(q_mul(x, y), q_mul(y, y)), q_div(x, y)),
        q_raw(q_div(q_mul(x, y), q_mul(y, y))),
        q_raw(q_div(x, y)),
{
}

/// Adding a value and subtracting an equal one cancels.
pub proof fn lemma_add_sub_cancel(x: Qv, y: Qv, y2: Qv)
    requires
        q_raw(x),
        q_raw(y),
        q_raw(y2),
        q_eq(y, y2),
    ensures
        q_eq(q_sub(q_add(x, y), y2), x),
{
    lemma_q_raw_ops(x, y);
    lemma_q_raw_ops(q_add(x, y), y2);
    let l0 = (x.0 * y.1 + y.0 * x.1) * y2.1 - y2.0 * (x.1 * y.1);
    assert((x.0 * y.1 + y.0 * x.1) * y2.1 == x.0 * (y.1 * y2.1) + (y.0 * y2.1) * x.1)
        by (nonlinear_arith);
    assert(y2.0 * (x.1 * y.1) == (y2.0 * y.1) * x.1) by (nonlinear_arith);
    assert(l0 == x.0 * (y.1 * y2.1));
    assert((x.0 * (y.1 * y2.1)) * x.1 == x.0 * ((x.1 * y.1) * y2.1)) by (nonlinear_arith);
}

/// A coefficient equal in value to one leaves a product unchanged in value.
pub proof fn lemma_mul_by_one(c0: Qv, x: Qv)
    requires
        q_raw(c0),
        q_raw(x),
        q_eq(c0, (1int, 1int)),
    ensures
        q_eq(q_mul(c0, x), x),
{
    assert(q_mul((1int, 1int), x) == ((x.0, x.1)));
    lemma_mul_cong(c0, (1int, 1int), x, x);
}

proof fn lemma_prod_bound(a: int, b: int)
    by (nonlinear_arith)
    requires
        -0x7fff_ffff_ffff_ffff <= a <= 0x7fff_ffff_ffff_ffff,
        -0x7fff_ffff_ffff_ffff <= b <= 0x7fff_ffff_ffff_ffff,
    ensures
        -0x3fff_ffff_ffff_ffff_0000_0000_0000_0001 <= a * b
            <= 0x3fff_ffff_ffff_ffff_0000_0000_0000_0001,
{
}

proof fn lemma_den_bound(a: int, b: int)
    by (nonlinear_arith)
    requires
        1 <= a <= 0x7fff_ffff_ffff_ffff,
        1 <= b <= 0x7fff_ffff_ffff_ffff,
    ensures
        1 <= a * b <= 0x3fff_ffff_ffff_ffff_0000_0000_0000_0001,
{
}

fn gcd_u128(a: u128, b: u128) -> (g: u128)
    requires
        b >= 1,
    ensures
        g as nat == gcd(a as nat, b as nat),
        g >= 1,
    {
    let mut x = a;
    let mut y = b;
    while y != 0
        invariant
            gcd(x as nat, y as nat) == gcd(a as nat, b as nat),
        decreases y,
    {
        let r = x % y;
        assert(gcd(x as nat, y as nat) == gcd(y as nat, r as nat));
        x = y;
        y = r;
    }
    assert(gcd(x as nat, 0) == x as nat);
    proof {
        lemma_gcd_pos(a as nat, b as nat);
    }
    x
}

/// Build the reduced stored form of `n / d`, or `None` when even the
/// reduced pair leaves the `i64` range.
fn rat_make(n: i128, d: i128) -> (r: Option<Rat>)
    requires
        1 <= d,
        n >= -0x7fff_ffff_ffff_ffff_ffff_ffff_ffff_ffff,
    ensures
        opt_v(r) == nq((n as int, d as int)),
        r is Some ==> q_wf(r->0@),
{
    proof {
        lemma_norm((n as int, d as int));
    }
    let neg = n < 0;
    let mag: u128 = if neg { (-n) as u128 } else { n as u128 };
    let du: u128 = d as u128;
    let g = gcd_u128(mag, du);
    proof {
        lemma_gcd_divides(mag as nat, du as nat);
        lemma_exact_div(mag as int, g as int);
        lemma_exact_div(du as int, g as int);
        if n < 0 {
            lemma_exact_div_signed(n as int, g as int);
        }
    }
    let nm = mag / g;
    let dm = du / g;
    assert(nm as int == abs_i(q_norm((n as int, d as int)).0));
    assert(dm as int == q_norm((n as int, d as int)).1);
    if nm > BOUND as u128 || dm > BOUND as u128 {
        None
    } else {
        let num: i64 = if neg { -(nm as i64) } else { nm as i64 };
        Some(Rat { num, den: dm as i64 })
    }
}

impl Rat {
    /// The integer `n` as a rational.
    pub fn from_int(n: i64) -> (r: Rat)
        requires
            -BOUND <= n,
        ensures
            r@ == (n as int, 1int),
            q_wf(r@),
    {
        Rat { num: n, den: 1 }
    }

    /// The rational `n / d`, reduced; `None` when the reduced pair does not
    /// fit the representation.
    pub fn new(n: i64, d: i64) -> (r: Option<Rat>)
        requires
            1 <= d,
        ensures
            opt_v(r) == nq((n as int, d as int)),
            r is Some ==> q_wf(r->0@),
    {
        rat_make(n as i128, d as i128)
    }

    /// Stored numerator.
    pub fn num(&self) -> (r: i64)
        ensures
            r as int == self@.0,
    {
        self.num
    }

    /// Stored denominator.
    pub fn den(&self) -> (r: i64)
        ensures
            r as int == self@.1,
    {
        self.den
    }

    /// Whether the value is exactly zero.
    pub fn is_zero(&self) -> (r: bool)
        ensures
            r == (self@.0 == 0),
    {
        self.num == 0
    }

    /// Checked exact sum.
    pub fn add(&self, o: &Rat) -> (r: Option<Rat>)
        requires
            q_wf(self@),
            q_wf(o@),
        ensures
            opt_v(r) == nq_add(self@, o@),
            r is Some ==> q_wf(r->0@),
    {
        proof {
            lemma_prod_bound(self.num as int, o.den as int);
            lemma_prod_bound(o.num as int, self.den as int);
            lemma_den_bound(self.den as int, o.den as int);
        }
        let rn = self.num as i128 * o.den as i128 + o.num as i128 * self.den as i128;
        let rd = self.den as i128 * o.den as i128;
        rat_make(rn, rd)
    }

    /// Checked exact difference.
    pub fn sub(&self, o: &Rat) -> (r: Option<Rat>)
        requires
            q_wf(self@),
            q_wf(o@),
        ensures
            opt_v(r) == nq_sub(self@, o@),
            r is Some ==> q_wf(r->0@),
    {
        proof {
            lemma_prod_bound(self.num as int, o.den as int);
            lemma_prod_bound(o.num as int, self.den as int);
            lemma_den_bound(self.den as int, o.den as int);
        }
        let rn = self.num as i128 * o.den as i128 - o.num as i128 * self.den as i128;
        let rd = self.den as i128 * o.den as i128;
        rat_make(rn, rd)
    }

    /// Checked exact product.
    pub fn mul(&self, o: &Rat) -> (r: Option<Rat>)
        requires
            q_wf(self@),
            q_wf(o@),
        ensures
            opt_v(r) == nq_mul(self@, o@),
            r is Some ==> q_wf(r->0@),
    {
        proof {
            lemma_prod_bound(self.num as int, o.num as int);
            lemma_den_bound(self.den as int, o.den as int);
        }
        let rn = self.num as i128 * o.num as i128;
        let rd = self.den as i128 * o.den as i128;
        rat_make(rn, rd)
    }

    /// Checked exact quotient; the divisor must not be zero.
    pub fn div(&self, o: &Rat) -> (r: Option<Rat>)
        requires
            q_wf(self@),
            q_wf(o@),
            o@.0 != 0,
        ensures
            opt_v(r) == nq_div(self@, o@),
            r is Some ==> q_wf(r->0@),
    {
        if o.num >= 0 {
            proof {
                lemma_prod_bound(self.num as int, o.den as int);
                lemma_den_bound(self.den as int, o.num as int);
            }
            let rn = self.num as i128 * o.den as i128;
            let rd = self.den as i128 * o.num as i128;
            rat_make(rn, rd)
        } else {
            proof {
                lemma_prod_bound(self.num as int, o.den as int);
                lemma_den_bound(self.den as int, -(o.num as int));
            }
            let rn = -(self.num as i128 * o.den as i128);
            let rd = self.den as i128 * (-(o.num as i128));
            rat_make(rn, rd)
        }
    }

    /// Exact negation; never overflows because magnitudes are bounded.
    pub fn neg(&self) -> (r: Rat)
        requires
            q_wf(self@),
        ensures
            r@ == q_neg(self@),
            q_wf(r@),
    {
        Rat { num: -self.num, den: self.den }
    }

    /// Exact absolute value.
    pub fn abs(&self) -> (r: Rat)
        requires
            q_wf(self@),
        ensures
            r@ == q_abs(self@),
            q_wf(r@),
    {
        if self.num < 0 {
            Rat { num: -self.num, den: self.den }
        } else {
            Rat { num: self.num, den: self.den }
        }
    }

    /// Value equality test.
    pub fn eq_rat(&self, o: &Rat) -> (r: bool)
        requires
            q_wf(self@),
            q_wf(o@),
        ensures
            r == q_eq(self@, o@),
    {
        proof {
            lemma_prod_bound(self.num as int, o.den as int);
            lemma_prod_bound(o.num as int, self.den as int);
        }
        self.num as i128 * o.den as i128 == o.num as i128 * self.den as i128
    }

    /// Value ordering test: `self <= o`.
    pub fn le(&self, o: &Rat) -> (r: bool)
        requires
            q_wf(self@),
            q_wf(o@),
        ensures
            r == q_le(self@, o@),
    {
        proof {
            lemma_prod_bound(self.num as int, o.den as int);
            lemma_prod_bound(o.num as int, self.den as int);
        }
        self.num as i128 * o.den as i128 <= o.num as i128 * self.den as i128
    }
}

} // verus!
