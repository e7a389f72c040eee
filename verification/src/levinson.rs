//! The Levinson-Durbin recursion.
//!
//! From an autocorrelation vector of length `p + 1` the solver derives the
//! coefficient vector (leading entry fixed at one) and the error-energy
//! vector of the order-`p` model, order by order. Two recursion modes are an
//! explicit configuration choice: the raw classical recursion, which divides
//! by the running energy and fails when it vanishes, and the clamped
//! recursion, which sets the reflection coefficient to zero for a step whose
//! energy is zero or whose numerator magnitude exceeds twice the energy.

use vstd::prelude::*;
use crate::LpcError;
use crate::rat::{
    Qv, Rat, abs_i, nq, nq_add, nq_div, nq_mul, nq_sub, q_add, q_div, q_mul, q_neg, q_sub, q_wf,
};
use crate::sums::{n_sum, seq_wf, views, lemma_n_sum_prefix_none, lemma_take_step};

verus! {

/// Outcome of the checked recursion at some order.
pub enum LdOut {
    /// Coefficients and error energies, each of length order + 1.
    Good { c: Seq<Qv>, e: Seq<Qv> },
    /// A divisor of the recursion was exactly zero.
    Degenerate,
    /// A reduced intermediate no longer fits the representation.
    Overflow,
}

/// The products summed for the reflection numerator at step `k`:
/// `c[j] * acf[k+1-j]` for `j = 0 ..= k`.
pub open spec fn lam_terms(c: Seq<Qv>, acf: Seq<Qv>, k: int) -> Seq<Qv> {
    Seq::new((k + 1) as nat, |j: int| q_mul(c[j], acf[k + 1 - j]))
}

/// Whether the clamped mode zeroes the reflection coefficient: the energy is
/// zero, or the numerator magnitude exceeds twice the energy magnitude.
pub open spec fn guard_trips(num: Qv, ek: Qv) -> bool {
    ek.0 == 0 || abs_i(num.0) * ek.1 > 2 * abs_i(ek.0) * num.1
}

/// The reflection coefficient of one step, `-num / e[k]`, clamped to zero in
/// the guarded mode as `guard_trips` says.
pub open spec fn ld_reflect(num: Qv, ek: Qv, guarded: bool) -> Option<Qv> {
    if guarded {
        if guard_trips(num, ek) {
            Some((0int, 1int))
        } else {
            nq_div(q_neg(num), ek)
        }
    } else {
        nq_div(q_neg(num), ek)
    }
}

/// Prefix `0 ..= i` of the next coefficient vector: entry 0 stays one, and
/// entry `j` becomes `c[j] + lam * c[k+1-j]`.
pub open spec fn ld_coef_prefix(c: Seq<Qv>, lam: Qv, k: int, i: int) -> Option<Seq<Qv>>
    decreases i,
{
    if i <= 0 {
        Some(seq![(1int, 1int)])
    } else {
        match ld_coef_prefix(c, lam, k, i - 1) {
            Some(p) => match nq_mul(lam, c[k + 1 - i]) {
                Some(m) => match nq_add(c[i], m) {
                    Some(v) => Some(p.push(v)),
                    None => None,
                },
                None => None,
            },
            None => None,
        }
    }
}

/// The full next coefficient vector: the updated prefix with the reflection
/// coefficient appended.
pub open spec fn ld_coefs(c: Seq<Qv>, lam: Qv, k: int) -> Option<Seq<Qv>> {
    match ld_coef_prefix(c, lam, k, k) {
        Some(p) => Some(p.push(lam)),
        None => None,
    }
}

/// The next error energy: `e[k] * (1 - lam * lam)`.
pub open spec fn ld_energy(ek: Qv, lam: Qv) -> Option<Qv> {
    match nq_mul(lam, lam) {
        Some(l2) => match nq_sub((1int, 1int), l2) {
            Some(om) => nq_mul(ek, om),
            None => None,
        },
        None => None,
    }
}

/// One step of the checked recursion, from order `k` to order `k + 1`.
pub open spec fn ld_step(c: Seq<Qv>, e: Seq<Qv>, acf: Seq<Qv>, guarded: bool, k: int) -> LdOut {
    match n_sum(lam_terms(c, acf, k)) {
        None => LdOut::Overflow,
        Some(num) => if !guarded && e[k].0 == 0 {
            LdOut::Degenerate
        } else {
            match ld_reflect(num, e[k], guarded) {
                None => LdOut::Overflow,
                Some(lam) => match ld_coefs(c, lam, k) {
                    None => LdOut::Overflow,
                    Some(c2) => match ld_energy(e[k], lam) {
                        None => LdOut::Overflow,
                        Some(e2) => LdOut::Good { c: c2, e: e.push(e2) },
                    },
                },
            }
        },
    }
}

/// The order-1 base: `c = [1, -acf[1]/acf[0]]`, `e = [1, acf[0] + acf[1]*c[1]]`.
/// A zero autocorrelation at lag zero is degenerate in either mode.
pub open spec fn ld_base(acf: Seq<Qv>) -> LdOut {
    if acf[0].0 == 0 {
        LdOut::Degenerate
    } else {
        match nq_div(q_neg(acf[1]), acf[0]) {
            None => LdOut::Overflow,
            Some(c1) => match nq_mul(acf[1], c1) {
                None => LdOut::Overflow,
                Some(m) => match nq_add(acf[0], m) {
                    None => LdOut::Overflow,
                    Some(e1) => LdOut::Good {
                        c: seq![(1int, 1int), c1],
                        e: seq![(1int, 1int), e1],
                    },
                },
            },
        }
    }
}

/// The checked recursion up to order `p`: order 0 is the trivial model, the
/// base gives order 1, and each further order is one `ld_step`.
pub open spec fn ld_run(acf: Seq<Qv>, guarded: bool, p: int) -> LdOut
    decreases p,
{
    if p <= 0 {
        LdOut::Good { c: seq![(1int, 1int)], e: seq![(1int, 1int)] }
    } else if p == 1 {
        ld_base(acf)
    } else {
        match ld_run(acf, guarded, p - 1) {
            LdOut::Good { c, e } => ld_step(c, e, acf, guarded, p - 1),
            other => other,
        }
    }
}

/// Once the recursion degenerates or overflows it stays that way.
pub proof fn lemma_ld_run_stuck(acf: Seq<Qv>, guarded: bool, m: int, p: int)
    requires
        1 <= m <= p,
        !(ld_run(acf, guarded, m) is Good),
    ensures
        ld_run(acf, guarded, p) == ld_run(acf, guarded, m),
    decreases p,
{
    if p > m {
        lemma_ld_run_stuck(acf, guarded, m, p - 1);
    }
}

/// A failed coefficient prefix fails every longer prefix.
proof fn lemma_coef_prefix_none(c: Seq<Qv>, lam: Qv, k: int, i: int, j: int)
    requires
        0 <= i <= j,
        ld_coef_prefix(c, lam, k, i) is None,
    ensures
        ld_coef_prefix(c, lam, k, j) is None,
    decreases j,
{
    if j > i {
        lemma_coef_prefix_none(c, lam, k, i, j - 1);
    }
}

/// A completed coefficient prefix has one entry per index and keeps the
/// leading one.
proof fn lemma_coef_prefix_shape(c: Seq<Qv>, lam: Qv, k: int, i: int)
    requires
        0 <= i,
        ld_coef_prefix(c, lam, k, i) is Some,
    ensures
        ld_coef_prefix(c, lam, k, i)->0.len() == i + 1,
        ld_coef_prefix(c, lam, k, i)->0[0] == (1int, 1int),
    decreases i,
{
    if i > 0 {
        lemma_coef_prefix_shape(c, lam, k, i - 1);
    }
}

/// Every completed model keeps `coef[0]` exactly one, for every order, with
/// one coefficient and one error energy per order up to `p`; the error
/// vector starts at the conventional unit, and the last coefficient of each
/// order is that order's reflection coefficient.
pub proof fn lemma_ld_good_shape(acf: Seq<Qv>, guarded: bool, p: int)
    requires
        0 <= p,
        ld_run(acf, guarded, p) is Good,
    ensures
        ld_run(acf, guarded, p) matches LdOut::Good { c, e } ==> c.len() == p + 1 && e.len() == p
            + 1 && c[0] == (1int, 1int) && e[0] == (1int, 1int),
    decreases p,
{
    if p >= 2 {
        match ld_run(acf, guarded, p - 1) {
            LdOut::Good { c, e } => {
                lemma_ld_good_shape(acf, guarded, p - 1);
                match n_sum(lam_terms(c, acf, p - 1)) {
                    Some(num) => {
                        match ld_reflect(num, e[p - 1], guarded) {
                            Some(lam) => {
                                if ld_coef_prefix(c, lam, p - 1, p - 1) is Some {
                                    lemma_coef_prefix_shape(c, lam, p - 1, p - 1);
                                }
                            },
                            None => {},
                        }
                    },
                    None => {},
                }
            },
            _ => {},
        }
    }
}

/// Entries of a completed coefficient prefix fit the representation.
proof fn lemma_coef_prefix_wf(c: Seq<Qv>, lam: Qv, k: int, i: int)
    requires
        0 <= i,
        ld_coef_prefix(c, lam, k, i) is Some,
    ensures
        seq_wf(ld_coef_prefix(c, lam, k, i)->0),
    decreases i,
{
    let p = ld_coef_prefix(c, lam, k, i)->0;
    if i <= 0 {
        assert(forall|t: int| 0 <= t < p.len() ==> q_wf(#[trigger] p[t]));
    } else {
        lemma_coef_prefix_wf(c, lam, k, i - 1);
        let prev = ld_coef_prefix(c, lam, k, i - 1)->0;
        let m = nq_mul(lam, c[k + 1 - i])->0;
        let v = nq_add(c[i], m)->0;
        assert(q_wf(v));
        assert(p == prev.push(v));
        assert forall|t: int| 0 <= t < p.len() implies q_wf(#[trigger] p[t]) by {
            if t < prev.len() {
                assert(p[t] == prev[t]);
            } else {
                assert(p[t] == v);
            }
        }
    }
}

/// Every value a completed recursion stores fits the representation.
pub proof fn lemma_ld_good_wf(acf: Seq<Qv>, guarded: bool, p: int)
    requires
        0 <= p,
        ld_run(acf, guarded, p) is Good,
    ensures
        ld_run(acf, guarded, p) matches LdOut::Good { c, e } ==> seq_wf(c) && seq_wf(e),
    decreases p,
{
    if p == 1 {
        match ld_run(acf, guarded, 1) {
            LdOut::Good { c, e } => {
                assert(forall|t: int| 0 <= t < c.len() ==> q_wf(#[trigger] c[t]));
                assert(forall|t: int| 0 <= t < e.len() ==> q_wf(#[trigger] e[t]));
            },
            _ => {},
        }
    } else if p >= 2 {
        match ld_run(acf, guarded, p - 1) {
            LdOut::Good { c, e } => {
                lemma_ld_good_wf(acf, guarded, p - 1);
                match n_sum(lam_terms(c, acf, p - 1)) {
                    Some(num) => match ld_reflect(num, e[p - 1], guarded) {
                        Some(lam) => {
                            assert(q_wf(lam));
                            match ld_coef_prefix(c, lam, p - 1, p - 1) {
                                Some(pref) => {
                                    lemma_coef_prefix_wf(c, lam, p - 1, p - 1);
                                    let c2 = pref.push(lam);
                                    assert(forall|t: int|
                                        0 <= t < c2.len() ==> q_wf(#[trigger] c2[t]));
                                    match ld_energy(e[p - 1], lam) {
                                        Some(e2) => {
                                            assert(q_wf(e2));
                                            let e3 = e.push(e2);
                                            assert(forall|t: int|
                                                0 <= t < e3.len() ==> q_wf(#[trigger] e3[t]));
                                        },
                                        None => {},
                                    }
                                },
                                None => {},
                            }
                        },
                        None => {},
                    },
                    None => {},
                }
            },
            _ => {},
        }
    }
}

/// In the clamped mode every reflection coefficient that a clamped step
/// produces has magnitude at most two: the clamp fires at twice the energy,
/// so the surviving quotient is bounded by it. The order-1 base ratio is
/// not clamped and carries no such bound.
pub proof fn lemma_clamped_step_bound(acf: Seq<Qv>, p: int)
    requires
        2 <= p,
        seq_wf(acf),
        p < acf.len(),
        ld_run(acf, true, p) is Good,
    ensures
        ld_run(acf, true, p) matches LdOut::Good { c, e } ==> crate::rat::q_le(
            crate::rat::q_abs(c[p]),
            (2int, 1int),
        ),
{
    match ld_run(acf, true, p - 1) {
        LdOut::Good { c, e } => {
            lemma_ld_good_wf(acf, true, p - 1);
            lemma_ld_good_shape(acf, true, p - 1);
            let ts = lam_terms(c, acf, p - 1);
            assert forall|j: int| 0 <= j < ts.len() implies crate::rat::q_raw(
                #[trigger] ts[j],
            ) by {
                assert(ts[j] == q_mul(c[j], acf[p - j]));
                crate::rat::lemma_q_raw_ops(c[j], acf[p - j]);
            }
            match n_sum(ts) {
                Some(num) => {
                    crate::sums::lemma_n_sum_sound(ts);
                    assert(q_wf(num));
                    match ld_reflect(num, e[p - 1], true) {
                        Some(lam) => {
                            if guard_trips(num, e[p - 1]) {
                                assert(lam == (0int, 1int));
                                assert(crate::rat::q_le(crate::rat::q_abs(lam), (2int, 1int)));
                            } else {
                                let raw = q_div(q_neg(num), e[p - 1]);
                                crate::rat::lemma_div_bound(num, e[p - 1]);
                                crate::rat::lemma_nq(raw);
                                assert(q_wf(lam) && crate::rat::q_eq(lam, raw));
                                crate::rat::lemma_abs_cong(lam, raw);
                                crate::rat::lemma_q_raw_ops(raw, raw);
                                crate::rat::lemma_q_raw_ops(lam, lam);
                                crate::rat::lemma_le_cong(
                                    crate::rat::q_abs(raw),
                                    crate::rat::q_abs(lam),
                                    (2int, 1int),
                                    (2int, 1int),
                                );
                            }
                            match ld_coefs(c, lam, p - 1) {
                                Some(c2) => {
                                    lemma_coef_prefix_shape(c, lam, p - 1, p - 1);
                                    assert(c2[p] == lam);
                                },
                                None => {},
                            }
                        },
                        None => {},
                    }
                },
                None => {},
            }
        },
        _ => {},
    }
}

/// The leading coefficient is one for every order, not only the final one:
/// whenever the recursion completes at order `p`, every intermediate order's
/// completed model also starts with exactly one and has one coefficient and
/// one energy per order.
pub proof fn lemma_ld_leading_one_all_orders(acf: Seq<Qv>, guarded: bool, p: int)
    requires
        0 <= p,
        ld_run(acf, guarded, p) is Good,
    ensures
        forall|k: int|
            0 <= k <= p ==> {
                &&& (#[trigger] ld_run(acf, guarded, k)) matches LdOut::Good { c, e }
                &&& ld_run(acf, guarded, k) matches LdOut::Good { c, e } ==> c.len() == k + 1
                    && e.len() == k + 1 && c[0] == (1int, 1int) && e[0] == (1int, 1int)
            },
{
    assert forall|k: int| 0 <= k <= p implies {
        &&& (#[trigger] ld_run(acf, guarded, k)) matches LdOut::Good { c, e }
        &&& ld_run(acf, guarded, k) matches LdOut::Good { c, e } ==> c.len() == k + 1 && e.len()
            == k + 1 && c[0] == (1int, 1int) && e[0] == (1int, 1int)
    } by {
        if k >= 1 && !(ld_run(acf, guarded, k) is Good) {
            lemma_ld_run_stuck(acf, guarded, k, p);
        }
        lemma_ld_good_shape(acf, guarded, k);
    }
}

/// Unfolding of the checked recursion by one step.
pub proof fn lemma_ld_run_step(acf: Seq<Qv>, guarded: bool, k: int, c: Seq<Qv>, e: Seq<Qv>)
    requires
        1 <= k,
        ld_run(acf, guarded, k) == (LdOut::Good { c, e }),
    ensures
        ld_run(acf, guarded, k + 1) == ld_step(c, e, acf, guarded, k),
{
    reveal_with_fuel(ld_run, 2);
}

/// The reflection numerator of step `k`: the checked sum of
/// `c[j] * acf[k+1-j]` over `j = 0 ..= k`.
fn reflect_numerator(cv: &Vec<Rat>, acf: &Vec<Rat>, k: usize) -> (r: Result<Rat, LpcError>)
    requires
        1 <= k,
        cv@.len() == k + 1,
        k + 1 < acf@.len(),
        seq_wf(views(cv@)),
        seq_wf(views(acf@)),
    ensures
        match r {
            Ok(num) => n_sum(lam_terms(views(cv@), views(acf@), k as int)) == Some(num@) && q_wf(
                num@,
            ),
            Err(e) => e == LpcError::Overflow && n_sum(
                lam_terms(views(cv@), views(acf@), k as int),
            ) is None,
        },
{
    let ghost sc = views(cv@);
    let ghost sa = views(acf@);
    assert(forall|i: int| 0 <= i <= k ==> #[trigger] sc[i] == cv@[i]@ && q_wf(sc[i]));
    assert(forall|i: int| 0 <= i < sa.len() ==> #[trigger] sa[i] == acf@[i]@ && q_wf(sa[i]));
    let ghost ts = lam_terms(sc, sa, k as int);
    let n = cv.len();
    assert(n == k + 1);
    let mut acc = Rat::from_int(0);
    let mut j: usize = 0;
    while j <= k
        invariant
            1 <= k,
            cv@.len() == k + 1,
            k + 1 < acf@.len(),
            sc == views(cv@),
            sa == views(acf@),
            forall|i: int| 0 <= i <= k ==> #[trigger] sc[i] == cv@[i]@ && q_wf(sc[i]),
            forall|i: int| 0 <= i < sa.len() ==> #[trigger] sa[i] == acf@[i]@ && q_wf(sa[i]),
            ts == lam_terms(sc, sa, k as int),
            n == k + 1,
            j <= k + 1,
            q_wf(acc@),
            n_sum(ts.take(j as int)) == Some(acc@),
        decreases k + 1 - j,
    {
        proof {
            lemma_take_step(ts, j as int);
            assert(ts[j as int] == q_mul(sc[j as int], sa[k + 1 - j]));
        }
        let m = match cv[j].mul(&acf[n - j]) {
            Some(m) => m,
            None => {
                proof {
                    assert(n_sum(ts.take(j as int + 1)) is None);
                    lemma_n_sum_prefix_none(ts, j as int + 1);
                }
                return Err(LpcError::Overflow);
            },
        };
        acc = match acc.add(&m) {
            Some(a) => a,
            None => {
                proof {
                    assert(n_sum(ts.take(j as int + 1)) is None);
                    lemma_n_sum_prefix_none(ts, j as int + 1);
                }
                return Err(LpcError::Overflow);
            },
        };
        j = j + 1;
    }
    assert(ts.take((k + 1) as int) =~= ts);
    Ok(acc)
}

/// Whether the clamped mode zeroes this step, exactly as `guard_trips` says.
fn guard_check(num: &Rat, ek: &Rat) -> (b: bool)
    requires
        q_wf(num@),
        q_wf(ek@),
    ensures
        b == guard_trips(num@, ek@),
{
    if ek.is_zero() {
        return true;
    }
    let na = num.abs();
    let ea = ek.abs();
    proof {
        crate::rat::lemma_abs_prod_bound(na@, ea@);
    }
    let lhs = na.num() as i128 * ea.den() as i128;
    let rhs = 2 * (ea.num() as i128) * (na.den() as i128);
    lhs > rhs
}

/// The next coefficient vector of step `k` from the current one and the
/// reflection coefficient, exactly as `ld_coefs` says.
fn next_coefs(cv: &Vec<Rat>, lam: &Rat, k: usize) -> (r: Result<Vec<Rat>, LpcError>)
    requires
        1 <= k,
        cv@.len() == k + 1,
        seq_wf(views(cv@)),
        q_wf(lam@),
    ensures
        match r {
            Ok(nc) => {
                &&& ld_coefs(views(cv@), lam@, k as int) == Some(views(nc@))
                &&& nc@.len() == k + 2
                &&& seq_wf(views(nc@))
                &&& nc@[0]@ == (1int, 1int)
            },
            Err(e) => e == LpcError::Overflow && ld_coefs(views(cv@), lam@, k as int) is None,
        },
{
    let ghost sc = views(cv@);
    assert(forall|t: int| 0 <= t <= k ==> #[trigger] sc[t] == cv@[t]@ && q_wf(sc[t]));
    let n = cv.len();
    assert(n == k + 1);
    let mut nc: Vec<Rat> = Vec::new();
    nc.push(Rat::from_int(1));
    assert(views(nc@) =~= seq![(1int, 1int)]);
    let mut i: usize = 1;
    while i <= k
        invariant
            1 <= k,
            cv@.len() == k + 1,
            sc == views(cv@),
            forall|t: int| 0 <= t <= k ==> #[trigger] sc[t] == cv@[t]@ && q_wf(sc[t]),
            q_wf(lam@),
            n == k + 1,
            1 <= i <= k + 1,
            nc@.len() == i,
            nc@[0]@ == (1int, 1int),
            forall|t: int| 0 <= t < i ==> q_wf(#[trigger] nc@[t]@),
            ld_coef_prefix(sc, lam@, k as int, i as int - 1) == Some(views(nc@)),
        decreases k + 1 - i,
    {
        let m = match lam.mul(&cv[n - i]) {
            Some(m) => m,
            None => {
                proof {
                    assert(ld_coef_prefix(sc, lam@, k as int, i as int) is None);
                    lemma_coef_prefix_none(sc, lam@, k as int, i as int, k as int);
                }
                return Err(LpcError::Overflow);
            },
        };
        let v = match cv[i].add(&m) {
            Some(v) => v,
            None => {
                proof {
                    assert(ld_coef_prefix(sc, lam@, k as int, i as int) is None);
                    lemma_coef_prefix_none(sc, lam@, k as int, i as int, k as int);
                }
                return Err(LpcError::Overflow);
            },
        };
        nc.push(v);
        proof {
            assert(views(nc@) =~= views(nc@.drop_last()).push(v@));
            assert(ld_coef_prefix(sc, lam@, k as int, i as int) == Some(views(nc@)));
        }
        i = i + 1;
    }
    nc.push(*lam);
    proof {
        assert(views(nc@) =~= views(nc@.drop_last()).push(lam@));
        assert(ld_coefs(sc, lam@, k as int) == Some(views(nc@)));
    }
    Ok(nc)
}

/// The next error energy `e[k] * (1 - lam * lam)`, exactly as `ld_energy`
/// says.
fn next_energy(ek: &Rat, lam: &Rat) -> (r: Result<Rat, LpcError>)
    requires
        q_wf(ek@),
        q_wf(lam@),
    ensures
        match r {
            Ok(e2) => ld_energy(ek@, lam@) == Some(e2@) && q_wf(e2@),
            Err(e) => e == LpcError::Overflow && ld_energy(ek@, lam@) is None,
        },
{
    let l2 = match lam.mul(lam) {
        Some(v) => v,
        None => {
            return Err(LpcError::Overflow);
        },
    };
    let om = match Rat::from_int(1).sub(&l2) {
        Some(v) => v,
        None => {
            return Err(LpcError::Overflow);
        },
    };
    match ek.mul(&om) {
        Some(v) => Ok(v),
        None => Err(LpcError::Overflow),
    }
}

/// Solve the normal equations for the order-`order` model.
///
/// Returns coefficients and error energies, each of length `order + 1`, as
/// `ld_run` describes them; `Degenerate` exactly when the checked recursion
/// divides by zero, `Overflow` exactly when it loses a value.
pub fn levinson_durbin(acf: &Vec<Rat>, order: usize, guarded: bool) -> (r: Result<
    (Vec<Rat>, Vec<Rat>),
    LpcError,
>)
    requires
        acf@.len() == order + 1,
        seq_wf(views(acf@)),
    ensures
        match r {
            Ok((cv, ev)) => {
                &&& ld_run(views(acf@), guarded, order as int) == (LdOut::Good {
                    c: views(cv@),
                    e: views(ev@),
                })
                &&& cv@.len() == order + 1
                &&& ev@.len() == order + 1
                &&& seq_wf(views(cv@))
                &&& seq_wf(views(ev@))
                &&& views(cv@)[0] == (1int, 1int)
            },
            Err(e) => {
                &&& e == LpcError::Degenerate <==> ld_run(views(acf@), guarded, order as int)
                    == LdOut::Degenerate
                &&& e == LpcError::Overflow <==> ld_run(views(acf@), guarded, order as int)
                    == LdOut::Overflow
                &&& e != LpcError::InvalidArgument
            },
        },
{
    let ghost sa = views(acf@);
    assert(forall|j: int| 0 <= j < sa.len() ==> #[trigger] sa[j] == acf@[j]@ && q_wf(sa[j]));
    let one = Rat::from_int(1);
    if order == 0 {
        let mut cv: Vec<Rat> = Vec::new();
        let mut ev: Vec<Rat> = Vec::new();
        cv.push(one);
        ev.push(one);
        assert(views(cv@) =~= seq![(1int, 1int)]);
        assert(views(ev@) =~= seq![(1int, 1int)]);
        return Ok((cv, ev));
    }
    if acf[0].is_zero() {
        proof {
            assert(ld_run(sa, guarded, 1) == LdOut::Degenerate);
            lemma_ld_run_stuck(sa, guarded, 1, order as int);
        }
        return Err(LpcError::Degenerate);
    }
    let c1 = match acf[1].neg().div(&acf[0]) {
        Some(v) => v,
        None => {
            proof {
                assert(ld_run(sa, guarded, 1) == LdOut::Overflow);
                lemma_ld_run_stuck(sa, guarded, 1, order as int);
            }
            return Err(LpcError::Overflow);
        },
    };
    let e1 = match acf[1].mul(&c1) {
        Some(m) => match acf[0].add(&m) {
            Some(v) => v,
            None => {
                proof {
                    assert(ld_run(sa, guarded, 1) == LdOut::Overflow);
                    lemma_ld_run_stuck(sa, guarded, 1, order as int);
                }
                return Err(LpcError::Overflow);
            },
        },
        None => {
            proof {
                assert(ld_run(sa, guarded, 1) == LdOut::Overflow);
                lemma_ld_run_stuck(sa, guarded, 1, order as int);
            }
            return Err(LpcError::Overflow);
        },
    };
    let mut cv: Vec<Rat> = Vec::new();
    let mut ev: Vec<Rat> = Vec::new();
    cv.push(one);
    cv.push(c1);
    ev.push(one);
    ev.push(e1);
    assert(views(cv@) =~= seq![(1int, 1int), c1@]);
    assert(views(ev@) =~= seq![(1int, 1int), e1@]);
    assert(ld_run(sa, guarded, 1) == (LdOut::Good { c: views(cv@), e: views(ev@) }));
    let mut k: usize = 1;
    while k < order
        invariant
            sa == views(acf@),
            acf@.len() == order + 1,
            seq_wf(sa),
            1 <= k <= order,
            cv@.len() == k + 1,
            ev@.len() == k + 1,
            seq_wf(views(cv@)),
            seq_wf(views(ev@)),
            cv@[0]@ == (1int, 1int),
            ld_run(sa, guarded, k as int) == (LdOut::Good { c: views(cv@), e: views(ev@) }),
        decreases order - k,
    {
        let ghost sc = views(cv@);
        let ghost se = views(ev@);
        assert(forall|j: int| 0 <= j <= k ==> #[trigger] se[j] == ev@[j]@ && q_wf(se[j]));
        proof {
            lemma_ld_run_step(sa, guarded, k as int, sc, se);
        }
        let num = match reflect_numerator(&cv, acf, k) {
            Ok(v) => v,
            Err(e) => {
                proof {
                    assert(ld_step(sc, se, sa, guarded, k as int) == LdOut::Overflow);
                    lemma_ld_run_stuck(sa, guarded, k as int + 1, order as int);
                }
                return Err(LpcError::Overflow);
            },
        };
        let ek = ev[k];
        let lam: Rat;
        if guarded {
            if guard_check(&num, &ek) {
                lam = Rat::from_int(0);
                assert(ld_reflect(num@, se[k as int], guarded) == Some(lam@));
            } else {
                lam = match num.neg().div(&ek) {
                    Some(v) => v,
                    None => {
                        proof {
                            assert(ld_step(sc, se, sa, guarded, k as int) == LdOut::Overflow);
                            lemma_ld_run_stuck(sa, guarded, k as int + 1, order as int);
                        }
                        return Err(LpcError::Overflow);
                    },
                };
                assert(ld_reflect(num@, se[k as int], guarded) == Some(lam@));
            }
        } else {
            if ek.is_zero() {
                proof {
                    assert(ld_step(sc, se, sa, guarded, k as int) == LdOut::Degenerate);
                    lemma_ld_run_stuck(sa, guarded, k as int + 1, order as int);
                }
                return Err(LpcError::Degenerate);
            }
            lam = match num.neg().div(&ek) {
                Some(v) => v,
                None => {
                    proof {
                        assert(ld_step(sc, se, sa, guarded, k as int) == LdOut::Overflow);
                        lemma_ld_run_stuck(sa, guarded, k as int + 1, order as int);
                    }
                    return Err(LpcError::Overflow);
                },
            };
            assert(ld_reflect(num@, se[k as int], guarded) == Some(lam@));
        }
        let nc = match next_coefs(&cv, &lam, k) {
            Ok(v) => v,
            Err(e) => {
                proof {
                    assert(ld_step(sc, se, sa, guarded, k as int) == LdOut::Overflow);
                    lemma_ld_run_stuck(sa, guarded, k as int + 1, order as int);
                }
                return Err(LpcError::Overflow);
            },
        };
        let e2 = match next_energy(&ek, &lam) {
            Ok(v) => v,
            Err(e) => {
                proof {
                    assert(ld_step(sc, se, sa, guarded, k as int) == LdOut::Overflow);
                    lemma_ld_run_stuck(sa, guarded, k as int + 1, order as int);
                }
                return Err(LpcError::Overflow);
            },
        };
        cv = nc;
        ev.push(e2);
        proof {
            assert(views(ev@) =~= se.push(e2@));
            assert(ld_step(sc, se, sa, guarded, k as int) == (LdOut::Good {
                c: views(cv@),
                e: views(ev@),
            }));
        }
        k = k + 1;
    }
    Ok((cv, ev))
}


/// The error energy the completed order-`k` model stores at its last slot.
pub open spec fn ld_energy_at(acf: Seq<Qv>, guarded: bool, k: int) -> Qv {
    match ld_run(acf, guarded, k) {
        LdOut::Good { c, e } => e[k],
        _ => (0int, 1int),
    }
}

/// The reflection coefficient of order `k`: the last coefficient the
/// completed order-`k` model stores.
pub open spec fn ld_reflection(acf: Seq<Qv>, guarded: bool, k: int) -> Qv {
    match ld_run(acf, guarded, k) {
        LdOut::Good { c, e } => c[k],
        _ => (0int, 1int),
    }
}

/// The final error vector holds, slot by slot, the running energies of the
/// intermediate orders.
proof fn lemma_ld_e_entries(acf: Seq<Qv>, guarded: bool, p: int)
    requires
        0 <= p,
        ld_run(acf, guarded, p) is Good,
    ensures
        ld_run(acf, guarded, p) matches LdOut::Good { c, e } ==> forall|j: int|
            0 <= j <= p ==> #[trigger] e[j] == ld_energy_at(acf, guarded, j),
    decreases p,
{
    lemma_ld_good_shape(acf, guarded, p);
    if p >= 2 {
        match ld_run(acf, guarded, p - 1) {
            LdOut::Good { c, e } => {
                lemma_ld_e_entries(acf, guarded, p - 1);
                lemma_ld_good_shape(acf, guarded, p - 1);
                match ld_run(acf, guarded, p) {
                    LdOut::Good { c: c2, e: e2 } => {
                        assert forall|j: int| 0 <= j <= p implies #[trigger] e2[j]
                            == ld_energy_at(acf, guarded, j) by {
                            if j < p {
                                assert(e2[j] == e[j]);
                            }
                        }
                    },
                    _ => {},
                }
            },
            _ => {},
        }
    }
}

/// One energy update cannot increase a nonnegative energy when the
/// reflection coefficient has magnitude at most one, and keeps it
/// nonnegative.
proof fn lemma_energy_step_value(ek: Qv, lam: Qv)
    by (nonlinear_arith)
    requires
        crate::rat::q_raw(ek),
        crate::rat::q_raw(lam),
        crate::rat::q_le((0int, 1int), ek),
        crate::rat::q_le(crate::rat::q_abs(lam), (1int, 1int)),
    ensures
        crate::rat::q_le(q_mul(ek, q_sub((1int, 1int), q_mul(lam, lam))), ek),
        crate::rat::q_le((0int, 1int), q_mul(ek, q_sub((1int, 1int), q_mul(lam, lam)))),
{
}

/// One recursion step keeps the running energy within the previous one.
proof fn lemma_energy_monotone_step(acf: Seq<Qv>, guarded: bool, k: int)
    requires
        1 <= k,
        ld_run(acf, guarded, k + 1) is Good,
        crate::rat::q_le((0int, 1int), ld_energy_at(acf, guarded, k)),
        crate::rat::q_le(crate::rat::q_abs(ld_reflection(acf, guarded, k + 1)), (1int, 1int)),
    ensures
        crate::rat::q_le(ld_energy_at(acf, guarded, k + 1), ld_energy_at(acf, guarded, k)),
        crate::rat::q_le((0int, 1int), ld_energy_at(acf, guarded, k + 1)),
{
    match ld_run(acf, guarded, k) {
        LdOut::Good { c, e } => {
            lemma_ld_good_wf(acf, guarded, k);
            lemma_ld_good_shape(acf, guarded, k);
            let ek = e[k];
            match n_sum(lam_terms(c, acf, k)) {
                Some(num) => match ld_reflect(num, ek, guarded) {
                    Some(lam) => match ld_coefs(c, lam, k) {
                        Some(c2) => match ld_energy(ek, lam) {
                            Some(e2) => {
                                lemma_coef_prefix_shape(c, lam, k, k);
                                assert(c2[k + 1] == lam);
                                assert(ld_reflection(acf, guarded, k + 1) == lam);
                                assert(ld_energy_at(acf, guarded, k + 1) == e2);
                                assert(crate::rat::q_raw(ek) && q_wf(lam));
                                // e2 ~ ek * (1 - lam^2), through the checked chain
                                let l2r = q_mul(lam, lam);
                                let l2 = nq_mul(lam, lam)->0;
                                crate::rat::lemma_q_raw_ops(lam, lam);
                                crate::rat::lemma_nq(l2r);
                                let omr = q_sub((1int, 1int), l2);
                                let om = nq_sub((1int, 1int), l2)->0;
                                crate::rat::lemma_q_raw_ops((1int, 1int), l2);
                                crate::rat::lemma_nq(omr);
                                let e2r = q_mul(ek, om);
                                crate::rat::lemma_q_raw_ops(ek, om);
                                crate::rat::lemma_nq(e2r);
                                // congruences down to the exact expression
                                crate::rat::lemma_sub_cong((1int, 1int), (1int, 1int), l2, l2r);
                                crate::rat::lemma_q_raw_ops((1int, 1int), l2r);
                                crate::rat::lemma_q_eq_trans(om, omr, q_sub((1int, 1int), l2r));
                                crate::rat::lemma_mul_cong(ek, ek, om, q_sub((1int, 1int), l2r));
                                crate::rat::lemma_q_raw_ops(ek, q_sub((1int, 1int), l2r));
                                crate::rat::lemma_q_eq_trans(
                                    e2,
                                    e2r,
                                    q_mul(ek, q_sub((1int, 1int), l2r)),
                                );
                                lemma_energy_step_value(ek, lam);
                                crate::rat::lemma_le_cong(
                                    q_mul(ek, q_sub((1int, 1int), l2r)),
                                    e2,
                                    ek,
                                    ek,
                                );
                                crate::rat::lemma_le_cong(
                                    (0int, 1int),
                                    (0int, 1int),
                                    q_mul(ek, q_sub((1int, 1int), l2r)),
                                    e2,
                                );
                            },
                            None => {},
                        },
                        None => {},
                    },
                    None => {},
                },
                None => {},
            }
        },
        _ => {
            lemma_ld_run_stuck(acf, guarded, k, k + 1);
        },
    }
}

/// For a positive-definite autocorrelation — rendered here as: the order-1
/// energy is nonnegative and every reflection coefficient has magnitude at
/// most one — the error energies are nonincreasing from order 1 up. The
/// conventional unit at slot 0 is excluded: an autocorrelation with lag-zero
/// value above one starts with an order-1 energy above that unit.
pub proof fn lemma_error_energy_monotone(acf: Seq<Qv>, guarded: bool, p: int)
    requires
        1 <= p,
        ld_run(acf, guarded, p) is Good,
        crate::rat::q_le((0int, 1int), ld_energy_at(acf, guarded, 1)),
        forall|k: int|
            2 <= k <= p ==> crate::rat::q_le(
                crate::rat::q_abs(#[trigger] ld_reflection(acf, guarded, k)),
                (1int, 1int),
            ),
    ensures
        ld_run(acf, guarded, p) matches LdOut::Good { c, e } ==> (forall|k: int|
            1 <= k < p ==> crate::rat::q_le(#[trigger] e[k + 1], e[k])) && (forall|k: int|
            1 <= k <= p ==> crate::rat::q_le((0int, 1int), #[trigger] e[k])),
    decreases p,
{
    lemma_ld_e_entries(acf, guarded, p);
    lemma_ld_good_shape(acf, guarded, p);
    if p == 1 {
    } else {
        if !(ld_run(acf, guarded, p - 1) is Good) {
            lemma_ld_run_stuck(acf, guarded, p - 1, p);
        }
        lemma_error_energy_monotone(acf, guarded, p - 1);
        lemma_ld_e_entries(acf, guarded, p - 1);
        lemma_energy_monotone_step(acf, guarded, p - 1);
        match ld_run(acf, guarded, p) {
            LdOut::Good { c, e } => {
                match ld_run(acf, guarded, p - 1) {
                    LdOut::Good { c: cp, e: ep } => {
                        assert forall|k: int| 1 <= k < p implies crate::rat::q_le(
                            #[trigger] e[k + 1],
                            e[k],
                        ) by {
                            if k < p - 1 {
                                assert(ep[k + 1] == ld_energy_at(acf, guarded, k + 1));
                                assert(ep[k] == ld_energy_at(acf, guarded, k));
                            }
                            assert(e[k + 1] == ld_energy_at(acf, guarded, k + 1));
                            assert(e[k] == ld_energy_at(acf, guarded, k));
                        }
                        assert forall|k: int| 1 <= k <= p implies crate::rat::q_le(
                            (0int, 1int),
                            #[trigger] e[k],
                        ) by {
                            assert(e[k] == ld_energy_at(acf, guarded, k));
                            if k < p {
                                assert(ep[k] == ld_energy_at(acf, guarded, k));
                            }
                        }
                    },
                    _ => {},
                }
            },
            _ => {},
        }
    }
}


/// The coefficient vector of the constant-signal model: one, minus one,
/// then zeros.
pub open spec fn const_coefs(p: int) -> Seq<Qv> {
    Seq::new(
        (p + 1) as nat,
        |i: int|
            if i == 0 {
                (1int, 1int)
            } else if i == 1 {
                (-1int, 1int)
            } else {
                (0int, 1int)
            },
    )
}

/// The energy vector of the constant-signal model: the unit, then zeros.
pub open spec fn const_energies(p: int) -> Seq<Qv> {
    Seq::new((p + 1) as nat, |i: int| if i == 0 { (1int, 1int) } else { (0int, 1int) })
}

/// With a zero reflection coefficient the constant-signal coefficients are
/// reproduced entry by entry.
proof fn lemma_const_prefix(c: Seq<Qv>, k: int, i: int)
    requires
        1 <= k,
        c.len() == k + 1,
        0 <= i <= k,
        c[0] == ((1int, 1int)),
        c[1] == ((-1int, 1int)),
        forall|j: int| 2 <= j <= k ==> #[trigger] c[j] == ((0int, 1int)),
    ensures
        ld_coef_prefix(c, (0int, 1int), k, i) == Some(c.take(i + 1)),
    decreases i,
{
    if i == 0 {
        assert(c.take(1) =~= seq![(1int, 1int)]);
    } else {
        lemma_const_prefix(c, k, i - 1);
        let x = c[k + 1 - i];
        assert(x.1 == 1);
        assert(q_mul((0int, 1int), x) == ((0int * x.0, 1int * x.1)));
        assert(0int * x.0 == 0 && 1int * x.1 == 1) by (nonlinear_arith)
            requires
                x.1 == 1,
        ;
        crate::rat::lemma_nq_zero(1);
        assert(nq_mul((0int, 1int), x) == Some((0int, 1int)));
        let ci = c[i];
        assert(q_add(ci, (0int, 1int)) == ((ci.0 * 1 + 0 * ci.1, ci.1 * 1)));
        assert(ci.0 * 1 == ci.0 && 0 * ci.1 == 0 && ci.1 * 1 == ci.1) by (nonlinear_arith);
        assert(q_add(ci, (0int, 1int)) == ci);
        crate::rat::lemma_nq_unit(1);
        if i == 1 {
            assert(nq(ci) == Some(ci));
        } else {
            crate::rat::lemma_nq_zero(1);
            assert(ci == ((0int, 1int)));
            assert(nq(ci) == Some(ci));
        }
        assert(nq_add(ci, (0int, 1int)) == Some(ci));
        assert(c.take(i + 1) =~= c.take(i).push(ci));
    }
}


proof fn lemma_scalar_units(x0: int, x1: int)
    by (nonlinear_arith)
    ensures
        0int * x1 + x0 * 1 == x0,
        1int * x1 == x1,
        x0 * x1 + (-x0) * x1 == 0,
        x1 >= 1 ==> x1 * x1 >= 1,
{
}

/// On the constant-signal coefficients the reflection numerator of any step
/// is exactly zero: the first two lagged products cancel and the rest vanish.
proof fn lemma_const_num_prefix(ts: Seq<Qv>, a: Qv, m: int)
    requires
        q_wf(a),
        a.0 >= 1,
        ts.len() >= 2,
        0 <= m <= ts.len(),
        ts[0] == ((a.0, a.1)),
        ts[1] == ((-a.0, a.1)),
        forall|j: int| 2 <= j < ts.len() ==> #[trigger] ts[j] == ((0int, a.1)),
    ensures
        m == 1 ==> n_sum(ts.take(m)) == Some(crate::rat::q_norm(a)),
        m != 1 ==> n_sum(ts.take(m)) == Some((0int, 1int)),
    decreases m,
{
    let p = crate::rat::q_norm(a);
    if m == 0 {
        assert(ts.take(0) =~= Seq::<Qv>::empty());
    } else {
        lemma_const_num_prefix(ts, a, m - 1);
        lemma_take_step(ts, m - 1);
        crate::rat::lemma_nq_wf(a);
        if m == 1 {
            assert((a.0, a.1) == a);
            assert(nq(ts[0]) == Some(p));
            lemma_scalar_units(p.0, p.1);
            assert(q_add((0int, 1int), p) == ((p.0, p.1)));
            crate::rat::lemma_norm_idempotent(a);
            assert(nq((p.0, p.1)) == Some(p));
        } else if m == 2 {
            crate::rat::lemma_nq_neg(a);
            let w = crate::rat::q_neg(p);
            assert(nq(ts[1]) == Some(w));
            lemma_scalar_units(p.0, p.1);
            assert(q_add(p, w) == ((p.0 * p.1 + (-p.0) * p.1, p.1 * p.1)));
            assert(q_add(p, w) == ((0int, p.1 * p.1)));
            crate::rat::lemma_nq_zero(p.1 * p.1);
        } else {
            assert(nq(ts[m - 1]) == nq((0int, a.1)));
            crate::rat::lemma_nq_zero(a.1);
            lemma_scalar_units(0, 1);
            assert(q_add((0int, 1int), (0int, 1int)) == ((0int * 1 + 0 * 1, 1int * 1)));
            assert(0int * 1 + 0 * 1 == 0 && 1int * 1 == 1) by (nonlinear_arith);
            crate::rat::lemma_nq_zero(1);
        }
    }
}

/// The constant-signal model: on an autocorrelation whose entries are all
/// one positive value — as a constant nonzero signal yields in the periodic
/// mode — the clamped recursion completes at every order with coefficients
/// one, minus one, zeros, and energies the unit followed by zeros.
pub proof fn lemma_ld_constant(acf: Seq<Qv>, a: Qv, p: int)
    requires
        q_wf(a),
        a.0 >= 1,
        1 <= p,
        acf.len() >= p + 1,
        forall|i: int| 0 <= i < acf.len() ==> #[trigger] acf[i] == a,
    ensures
        ld_run(acf, true, p) == (LdOut::Good { c: const_coefs(p), e: const_energies(p) }),
    decreases p,
{
    let np = crate::rat::q_norm(a);
    crate::rat::lemma_nq_wf(a);
    if p == 1 {
        assert(acf[0] == a && acf[1] == a);
        // c1 = -(a)/a reduces to minus one
        let raw = q_div(q_neg(a), a);
        assert(raw == ((-(a.0) * a.1, a.1 * a.0)));
        assert((-(a.0)) * a.1 == -(a.0 * a.1) && a.1 * a.0 == a.0 * a.1) by (nonlinear_arith);
        assert(1 <= a.0 * a.1 <= 0x7fff_ffff_ffff_ffff * 0x7fff_ffff_ffff_ffff)
            by (nonlinear_arith)
            requires
                1 <= a.0 <= 0x7fff_ffff_ffff_ffff,
                1 <= a.1 <= 0x7fff_ffff_ffff_ffff,
        ;
        crate::rat::lemma_nq_unit(a.0 * a.1);
        assert(nq_div(q_neg(a), a) == Some((-1int, 1int)));
        // e1 = a + a * c1 reduces to zero
        assert(q_mul(a, (-1int, 1int)) == ((a.0 * -1, a.1 * 1)));
        assert(a.0 * -1 == -(a.0) && a.1 * 1 == a.1) by (nonlinear_arith);
        crate::rat::lemma_nq_neg(a);
        let w = crate::rat::q_neg(np);
        assert(nq_mul(a, (-1int, 1int)) == Some(w));
        assert(q_add(a, w) == ((a.0 * w.1 + w.0 * a.1, a.1 * w.1)));
        assert(np.0 * a.1 == a.0 * np.1);
        assert(a.0 * np.1 + (-np.0) * a.1 == 0) by (nonlinear_arith)
            requires
                np.0 * a.1 == a.0 * np.1,
        ;
        assert(a.1 * np.1 >= 1) by (nonlinear_arith)
            requires
                a.1 >= 1,
                np.1 >= 1,
        ;
        crate::rat::lemma_nq_zero(a.1 * np.1);
        assert(nq_add(a, w) == Some((0int, 1int)));
        assert(ld_base(acf) == (LdOut::Good {
            c: seq![(1int, 1int), (-1int, 1int)],
            e: seq![(1int, 1int), (0int, 1int)],
        }));
        assert(const_coefs(1) =~= seq![(1int, 1int), (-1int, 1int)]);
        assert(const_energies(1) =~= seq![(1int, 1int), (0int, 1int)]);
    } else {
        lemma_ld_constant(acf, a, p - 1);
        let c = const_coefs(p - 1);
        let e = const_energies(p - 1);
        let k = p - 1;
        let ts = lam_terms(c, acf, k);
        assert(ts.len() == k + 1 >= 2);
        assert(ts[0] == q_mul(c[0], acf[k + 1]));
        assert(q_mul((1int, 1int), a) == ((1int * a.0, 1int * a.1)));
        assert(1int * a.0 == a.0 && 1int * a.1 == a.1) by (nonlinear_arith);
        assert(ts[0] == ((a.0, a.1)));
        assert(ts[1] == q_mul(c[1], acf[k]));
        assert(q_mul((-1int, 1int), a) == (((-1int) * a.0, 1int * a.1)));
        assert((-1int) * a.0 == -(a.0)) by (nonlinear_arith);
        assert(ts[1] == ((-a.0, a.1)));
        assert forall|j: int| 2 <= j < ts.len() implies #[trigger] ts[j] == ((0int, a.1)) by {
            assert(ts[j] == q_mul(c[j], acf[k + 1 - j]));
            assert(q_mul((0int, 1int), a) == ((0int * a.0, 1int * a.1)));
            assert(0int * a.0 == 0 && 1int * a.1 == a.1) by (nonlinear_arith);
        }
        lemma_const_num_prefix(ts, a, ts.len() as int);
        assert(ts.take(ts.len() as int) =~= ts);
        assert(n_sum(ts) == Some((0int, 1int)));
        assert(e[k] == ((0int, 1int)));
        assert(guard_trips((0int, 1int), e[k]));
        assert(ld_reflect((0int, 1int), e[k], true) == Some((0int, 1int)));
        lemma_const_prefix(c, k, k);
        assert(c.take(k + 1) =~= c);
        assert(ld_coefs(c, (0int, 1int), k) == Some(c.push((0int, 1int))));
        assert(c.push((0int, 1int)) =~= const_coefs(p));
        // energy: 0 * (1 - 0) stays zero
        assert(q_mul((0int, 1int), (0int, 1int)) == ((0int * 0, 1int * 1)));
        assert(0int * 0 == 0 && 1int * 1 == 1) by (nonlinear_arith);
        crate::rat::lemma_nq_zero(1);
        assert(nq_mul((0int, 1int), (0int, 1int)) == Some((0int, 1int)));
        assert(q_sub((1int, 1int), (0int, 1int)) == ((1int * 1 - 0 * 1, 1int * 1)));
        crate::rat::lemma_nq_unit(1);
        assert(nq_sub((1int, 1int), (0int, 1int)) == Some((1int, 1int)));
        assert(q_mul((0int, 1int), (1int, 1int)) == ((0int * 1, 1int * 1)));
        assert(nq_mul((0int, 1int), (1int, 1int)) == Some((0int, 1int)));
        assert(ld_energy(e[k], (0int, 1int)) == Some((0int, 1int)));
        assert(ld_step(c, e, acf, true, k) == (LdOut::Good {
            c: c.push((0int, 1int)),
            e: e.push((0int, 1int)),
        }));
        assert(e.push((0int, 1int)) =~= const_energies(p));
        lemma_ld_run_step(acf, true, k, c, e);
    }
}

} // verus!
