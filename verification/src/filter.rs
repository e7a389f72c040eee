//! Analysis (prediction-error) and synthesis (reconstruction) filters.
//!
//! Boundary handling is an explicit configuration choice. The wrapped mode
//! treats the window as one period of a repeating waveform and indexes
//! circularly; the zero-history mode drops terms that would reach before the
//! window start, and is the mode whose synthesis exactly inverts its
//! analysis. The wrapped synthesis runs one pass in increasing time order
//! over a buffer initialized with the residual, so for early samples the
//! wrapped reads still see residual values: it reconstructs a periodic
//! signal, not a causal decode.

use vstd::prelude::*;
use crate::LpcError;
use crate::rat::{
    Qv, Rat, nq_sub, q_add, q_eq, q_mul, q_raw, q_sub, q_wf, lemma_add_sub_cancel,
    lemma_mul_by_one, lemma_mul_cong, lemma_nq, lemma_q_eq_trans, lemma_q_raw_ops, lemma_sub_cong,
};
use crate::sums::{
    n_sum, q_sum, seq_raw, seq_wf, views, lemma_n_sum_prefix_none, lemma_n_sum_sound,
    lemma_q_sum_cong, lemma_q_sum_raw, lemma_q_sum_split_first, lemma_take_step,
};

verus! {

/// How many terms of `c` the zero-history sum at time `t` can use, starting
/// from index `lo` (0 for analysis, 1 for synthesis).
pub open spec fn hist_count(c: Seq<Qv>, t: int, lo: int) -> int {
    if c.len() as int - lo <= t + 1 - lo {
        c.len() as int - lo
    } else {
        t + 1 - lo
    }
}

/// The products summed by the analysis filter at time `t`:
/// `c[i] * s[(t-i) mod n]` for `i = 0 ..= p` when wrapped, else
/// `c[i] * s[t-i]` for `i = 0 ..= min(p, t)`.
pub open spec fn ana_terms(c: Seq<Qv>, s: Seq<Qv>, t: int, wrapped: bool) -> Seq<Qv> {
    if wrapped {
        Seq::new(c.len(), |i: int| q_mul(c[i], s[(t + s.len() - i) % (s.len() as int)]))
    } else {
        Seq::new(hist_count(c, t, 0) as nat, |i: int| q_mul(c[i], s[t - i]))
    }
}

/// The checked analysis value at time `t`.
pub open spec fn ana_at(c: Seq<Qv>, s: Seq<Qv>, t: int, wrapped: bool) -> Option<Qv> {
    n_sum(ana_terms(c, s, t, wrapped))
}

/// The products the synthesis filter subtracts at time `t`, read from the
/// evolving output buffer `buf`.
pub open spec fn syn_terms(c: Seq<Qv>, buf: Seq<Qv>, t: int, wrapped: bool) -> Seq<Qv> {
    if wrapped {
        Seq::new(
            (c.len() - 1) as nat,
            |i: int| q_mul(c[i + 1], buf[(t + buf.len() - (i + 1)) % (buf.len() as int)]),
        )
    } else {
        Seq::new(hist_count(c, t, 1) as nat, |i: int| q_mul(c[i + 1], buf[t - (i + 1)]))
    }
}

/// The checked synthesis recursion after `t` samples: the zero-history mode
/// grows the output from the front; the wrapped mode updates, in place and
/// in increasing time order, a buffer that starts as the residual.
pub open spec fn syn_run(c: Seq<Qv>, r: Seq<Qv>, t: int, wrapped: bool) -> Option<Seq<Qv>>
    decreases t,
{
    if t <= 0 {
        if wrapped {
            Some(r)
        } else {
            Some(Seq::empty())
        }
    } else {
        match syn_run(c, r, t - 1, wrapped) {
            Some(buf) => match n_sum(syn_terms(c, buf, t - 1, wrapped)) {
                Some(sum) => {
                    let base = if wrapped {
                        buf[t - 1]
                    } else {
                        r[t - 1]
                    };
                    match nq_sub(base, sum) {
                        Some(v) => Some(
                            if wrapped {
                                buf.update(t - 1, v)
                            } else {
                                buf.push(v)
                            },
                        ),
                        None => None,
                    }
                },
                None => None,
            },
            None => None,
        }
    }
}

/// A failed synthesis step fails the whole synthesis.
pub proof fn lemma_syn_run_none(c: Seq<Qv>, r: Seq<Qv>, t: int, p: int, wrapped: bool)
    requires
        0 <= t <= p,
        syn_run(c, r, t, wrapped) is None,
    ensures
        syn_run(c, r, p, wrapped) is None,
    decreases p,
{
    if p > t {
        lemma_syn_run_none(c, r, t, p - 1, wrapped);
    }
}

/// Round trip: in the zero-history mode, the synthesis filter applied to
/// the exact residual the analysis filter produced, under the same
/// coefficient vector with leading value one, reconstructs the original
/// signal, sample for sample and exactly. The wrapped mode does not have
/// this property: its one-pass synthesis reads residual values through the
/// wraparound.
pub proof fn lemma_round_trip(c: Seq<Qv>, s: Seq<Qv>, r: Seq<Qv>, out: Seq<Qv>, t: int)
    requires
        seq_raw(c),
        seq_raw(s),
        c.len() >= 1,
        q_eq(c[0], (1int, 1int)),
        r.len() == s.len(),
        forall|j: int| 0 <= j < s.len() ==> ana_at(c, s, j, false) == Some(#[trigger] r[j]),
        0 <= t <= s.len(),
        syn_run(c, r, t, false) == Some(out),
    ensures
        out.len() == t,
        forall|j: int| 0 <= j < t ==> q_eq(#[trigger] out[j], s[j]) && q_raw(out[j]),
    decreases t,
{
    if t > 0 {
        let prev = syn_run(c, r, t - 1, false)->0;
        lemma_round_trip(c, s, r, prev, t - 1);
        let zts = syn_terms(c, prev, t - 1, false);
        let ats = ana_terms(c, s, t - 1, false);
        let rest = ats.skip(1);
        assert(ats.len() == hist_count(c, t - 1, 0));
        assert(zts.len() == hist_count(c, t - 1, 1));
        assert(ats.len() == zts.len() + 1);
        assert forall|i: int| 0 <= i < ats.len() implies q_raw(#[trigger] ats[i]) by {
            assert(ats[i] == q_mul(c[i], s[t - 1 - i]));
            lemma_q_raw_ops(c[i], s[t - 1 - i]);
        }
        assert forall|i: int| 0 <= i < zts.len() implies q_raw(#[trigger] zts[i]) && q_eq(
            zts[i],
            rest[i],
        ) by {
            assert(zts[i] == q_mul(c[i + 1], prev[t - 1 - (i + 1)]));
            assert(rest[i] == ats[i + 1]);
            assert(ats[i + 1] == q_mul(c[i + 1], s[t - 1 - (i + 1)]));
            lemma_q_raw_ops(c[i + 1], prev[t - 1 - (i + 1)]);
            lemma_mul_cong(c[i + 1], c[i + 1], prev[t - 1 - (i + 1)], s[t - 1 - (i + 1)]);
        }
        assert(seq_raw(rest));
        let sum = n_sum(zts)->0;
        lemma_n_sum_sound(zts);
        lemma_q_sum_cong(zts, rest);
        lemma_q_sum_raw(zts);
        lemma_q_sum_raw(rest);
        lemma_q_sum_raw(ats);
        // the residual sample is the exact analysis sum
        lemma_n_sum_sound(ats);
        assert(ana_at(c, s, t - 1, false) == Some(r[t - 1]));
        assert(q_eq(r[t - 1], q_sum(ats)) && q_wf(r[t - 1]));
        // the new sample: r[t-1] - sum  ~  ats[0]  ~  s[t-1]
        let v = out[t - 1];
        lemma_q_raw_ops(r[t - 1], sum);
        lemma_nq(q_sub(r[t - 1], sum));
        assert(q_eq(v, q_sub(r[t - 1], sum)) && q_raw(v));
        lemma_q_sum_split_first(ats);
        lemma_q_raw_ops(ats[0], q_sum(rest));
        // q_sub(r[t-1], sum) ~ q_sub(ats[0] + sum(rest), sum(rest'))
        lemma_q_eq_trans(sum, q_sum(zts), q_sum(rest));
        lemma_q_eq_trans(r[t - 1], q_sum(ats), q_add(ats[0], q_sum(rest)));
        lemma_sub_cong(r[t - 1], q_add(ats[0], q_sum(rest)), sum, q_sum(rest));
        lemma_add_sub_cancel(ats[0], q_sum(rest), q_sum(rest));
        lemma_q_raw_ops(q_add(ats[0], q_sum(rest)), q_sum(rest));
        lemma_q_eq_trans(
            v,
            q_sub(r[t - 1], sum),
            q_sub(q_add(ats[0], q_sum(rest)), q_sum(rest)),
        );
        lemma_q_eq_trans(v, q_sub(q_add(ats[0], q_sum(rest)), q_sum(rest)), ats[0]);
        assert(ats[0] == q_mul(c[0], s[t - 1]));
        lemma_mul_by_one(c[0], s[t - 1]);
        lemma_q_raw_ops(c[0], s[t - 1]);
        lemma_q_eq_trans(v, ats[0], s[t - 1]);
        assert(out =~= prev.push(v));
    }
}

/// Apply the analysis filter: `res[t]` is the sum the configured mode says,
/// with `c[0]` entering the sum as it stands (one, for a solver-produced
/// coefficient vector).
///
/// `InvalidArgument` exactly when `c` is empty or longer than the signal;
/// `Overflow` exactly when some time's checked sum fails.
pub fn analysis_filter(c: &Vec<Rat>, s: &Vec<Rat>, wrapped: bool) -> (r: Result<Vec<Rat>, LpcError>)
    requires
        seq_wf(views(c@)),
        seq_wf(views(s@)),
        s@.len() <= usize::MAX / 2,
    ensures
        match r {
            Ok(res) => {
                &&& 1 <= c@.len() <= s@.len()
                &&& res@.len() == s@.len()
                &&& seq_wf(views(res@))
                &&& forall|t: int|
                    0 <= t < s@.len() ==> ana_at(views(c@), views(s@), t, wrapped) == Some(
                        #[trigger] views(res@)[t],
                    )
            },
            Err(e) => {
                &&& e == LpcError::InvalidArgument <==> !(1 <= c@.len() <= s@.len())
                &&& e != LpcError::Degenerate
                &&& e == LpcError::Overflow ==> exists|t: int|
                    0 <= t < s@.len() && #[trigger] ana_at(views(c@), views(s@), t, wrapped) is None
            },
        },
{
    let ghost sc = views(c@);
    let ghost ss = views(s@);
    assert(forall|i: int| 0 <= i < sc.len() ==> #[trigger] sc[i] == c@[i]@ && q_wf(sc[i]));
    assert(forall|i: int| 0 <= i < ss.len() ==> #[trigger] ss[i] == s@[i]@ && q_wf(ss[i]));
    if c.len() == 0 || c.len() > s.len() {
        return Err(LpcError::InvalidArgument);
    }
    let n = s.len();
    let p1 = c.len();
    let mut res: Vec<Rat> = Vec::new();
    let mut t: usize = 0;
    while t < n
        invariant
            sc == views(c@),
            ss == views(s@),
            forall|i: int| 0 <= i < sc.len() ==> #[trigger] sc[i] == c@[i]@ && q_wf(sc[i]),
            forall|i: int| 0 <= i < ss.len() ==> #[trigger] ss[i] == s@[i]@ && q_wf(ss[i]),
            n == s@.len(),
            n <= usize::MAX / 2,
            p1 == c@.len(),
            1 <= p1 <= n,
            t <= n,
            res@.len() == t,
            forall|j: int| 0 <= j < t ==> q_wf(#[trigger] res@[j]@),
            forall|j: int| 0 <= j < t ==> ana_at(sc, ss, j, wrapped) == Some(#[trigger] res@[j]@),
        decreases n - t,
    {
        let cnt = if wrapped {
            p1
        } else {
            if p1 <= t { p1 } else { t + 1 }
        };
        let ghost ts = ana_terms(sc, ss, t as int, wrapped);
        assert(ts.len() == cnt);
        proof {
            assert forall|i: int| 0 <= i < ts.len() implies q_raw(#[trigger] ts[i]) by {
                let j = if wrapped {
                    (t + ss.len() - i) % (ss.len() as int)
                } else {
                    t - i
                };
                assert(0 <= j < n);
                assert(ts[i] == q_mul(sc[i], ss[j]));
                crate::rat::lemma_q_raw_ops(sc[i], ss[j]);
            }
        }
        let mut acc = Rat::from_int(0);
        let mut i: usize = 0;
        while i < cnt
            invariant
                sc == views(c@),
                ss == views(s@),
                forall|v: int| 0 <= v < sc.len() ==> #[trigger] sc[v] == c@[v]@ && q_wf(sc[v]),
                forall|v: int| 0 <= v < ss.len() ==> #[trigger] ss[v] == s@[v]@ && q_wf(ss[v]),
                n == s@.len(),
                n <= usize::MAX / 2,
                p1 == c@.len(),
                1 <= p1 <= n,
                t < n,
                cnt as int == if wrapped {
                    p1 as int
                } else {
                    hist_count(sc, t as int, 0)
                },
                cnt <= p1,
                ts == ana_terms(sc, ss, t as int, wrapped),
                ts.len() == cnt,
                i <= cnt,
                q_wf(acc@),
                n_sum(ts.take(i as int)) == Some(acc@),
            decreases cnt - i,
        {
            let idx = if wrapped {
                (t + n - i) % n
            } else {
                t - i
            };
            proof {
                lemma_take_step(ts, i as int);
                assert(ts[i as int] == q_mul(sc[i as int], ss[idx as int]));
            }
            let m = match c[i].mul(&s[idx]) {
                Some(m) => m,
                None => {
                    proof {
                        assert(n_sum(ts.take(i as int + 1)) is None);
                        lemma_n_sum_prefix_none(ts, i as int + 1);
                        assert(ana_at(views(c@), views(s@), t as int, wrapped) is None);
                    }
                    return Err(LpcError::Overflow);
                },
            };
            acc = match acc.add(&m) {
                Some(a) => a,
                None => {
                    proof {
                        assert(n_sum(ts.take(i as int + 1)) is None);
                        lemma_n_sum_prefix_none(ts, i as int + 1);
                        assert(ana_at(views(c@), views(s@), t as int, wrapped) is None);
                    }
                    return Err(LpcError::Overflow);
                },
            };
            i = i + 1;
        }
        assert(ts.take(cnt as int) =~= ts);
        assert(ana_at(sc, ss, t as int, wrapped) == Some(acc@));
        res.push(acc);
        t = t + 1;
    }
    proof {
        assert forall|j: int| 0 <= j < res@.len() implies #[trigger] views(res@)[j] == res@[j]@
            && q_wf(views(res@)[j]) && ana_at(sc, ss, j, wrapped) == Some(views(res@)[j]) by {
            assert(q_wf(res@[j]@));
            assert(ana_at(sc, ss, j, wrapped) == Some(res@[j]@));
        }
    }
    Ok(res)
}

/// Apply the synthesis filter: reconstruct a signal from a residual with the
/// same coefficients, as `syn_run` says for the configured mode.
///
/// `InvalidArgument` exactly when `c` is empty or longer than the residual;
/// `Overflow` exactly when the checked recursion loses a value.
pub fn synthesis_filter(c: &Vec<Rat>, rsd: &Vec<Rat>, wrapped: bool) -> (r: Result<
    Vec<Rat>,
    LpcError,
>)
    requires
        seq_wf(views(c@)),
        seq_wf(views(rsd@)),
        rsd@.len() <= usize::MAX / 2,
    ensures
        match r {
            Ok(out) => {
                &&& 1 <= c@.len() <= rsd@.len()
                &&& out@.len() == rsd@.len()
                &&& seq_wf(views(out@))
                &&& syn_run(views(c@), views(rsd@), rsd@.len() as int, wrapped) == Some(
                    views(out@),
                )
            },
            Err(e) => {
                &&& e == LpcError::InvalidArgument <==> !(1 <= c@.len() <= rsd@.len())
                &&& e != LpcError::Degenerate
                &&& e == LpcError::Overflow ==> syn_run(
                    views(c@),
                    views(rsd@),
                    rsd@.len() as int,
                    wrapped,
                ) is None
            },
        },
{
    let ghost sc = views(c@);
    let ghost sr = views(rsd@);
    assert(forall|i: int| 0 <= i < sc.len() ==> #[trigger] sc[i] == c@[i]@ && q_wf(sc[i]));
    assert(forall|i: int| 0 <= i < sr.len() ==> #[trigger] sr[i] == rsd@[i]@ && q_wf(sr[i]));
    if c.len() == 0 || c.len() > rsd.len() {
        return Err(LpcError::InvalidArgument);
    }
    let n = rsd.len();
    let p1 = c.len();
    let mut out: Vec<Rat>;
    if wrapped {
        out = Vec::new();
        let mut w: usize = 0;
        while w < n
            invariant
                sr == views(rsd@),
                forall|i: int| 0 <= i < sr.len() ==> #[trigger] sr[i] == rsd@[i]@ && q_wf(sr[i]),
                n == rsd@.len(),
                w <= n,
                out@.len() == w,
                forall|i: int| 0 <= i < w ==> #[trigger] out@[i] == rsd@[i],
            decreases n - w,
        {
            out.push(rsd[w]);
            w = w + 1;
        }
        assert(views(out@) =~= sr);
        assert forall|j: int| 0 <= j < out@.len() implies q_wf(#[trigger] out@[j]@) by {
            assert(out@[j] == rsd@[j]);
            assert(out@[j]@ == sr[j]);
        }
    } else {
        out = Vec::new();
        assert(views(out@) =~= Seq::<Qv>::empty());
    }
    let mut t: usize = 0;
    while t < n
        invariant
            sc == views(c@),
            sr == views(rsd@),
            forall|i: int| 0 <= i < sc.len() ==> #[trigger] sc[i] == c@[i]@ && q_wf(sc[i]),
            forall|i: int| 0 <= i < sr.len() ==> #[trigger] sr[i] == rsd@[i]@ && q_wf(sr[i]),
            n == rsd@.len(),
            n <= usize::MAX / 2,
            p1 == c@.len(),
            1 <= p1 <= n,
            t <= n,
            out@.len() == if wrapped { n as int } else { t as int },
            forall|j: int| 0 <= j < out@.len() ==> q_wf(#[trigger] out@[j]@),
            syn_run(sc, sr, t as int, wrapped) == Some(views(out@)),
        decreases n - t,
    {
        let ghost buf = views(out@);
        let ghost ts = syn_terms(sc, buf, t as int, wrapped);
        let cnt = if wrapped {
            p1 - 1
        } else {
            if p1 - 1 <= t { p1 - 1 } else { t }
        };
        assert(ts.len() == cnt);
        proof {
            assert forall|i: int| 0 <= i < ts.len() implies q_raw(#[trigger] ts[i]) by {
                let j = if wrapped {
                    (t + buf.len() - (i + 1)) % (buf.len() as int)
                } else {
                    t - (i + 1)
                };
                assert(0 <= j < out@.len());
                assert(ts[i] == q_mul(sc[i + 1], buf[j]));
                crate::rat::lemma_q_raw_ops(sc[i + 1], buf[j]);
            }
        }
        let mut acc = Rat::from_int(0);
        let mut i: usize = 0;
        while i < cnt
            invariant
                sc == views(c@),
                sr == views(rsd@),
                forall|v: int| 0 <= v < sc.len() ==> #[trigger] sc[v] == c@[v]@ && q_wf(sc[v]),
                n == rsd@.len(),
                n <= usize::MAX / 2,
                p1 == c@.len(),
                1 <= p1 <= n,
                t < n,
                out@.len() == if wrapped { n as int } else { t as int },
                forall|j: int| 0 <= j < out@.len() ==> q_wf(#[trigger] out@[j]@),
                buf == views(out@),
                ts == syn_terms(sc, buf, t as int, wrapped),
                ts.len() == cnt,
                cnt < p1,
                i <= cnt,
                q_wf(acc@),
                n_sum(ts.take(i as int)) == Some(acc@),
                syn_run(sc, sr, t as int, wrapped) == Some(views(out@)),
            decreases cnt - i,
        {
            let idx = if wrapped {
                (t + n - (i + 1)) % n
            } else {
                t - (i + 1)
            };
            assert(views(out@)[idx as int] == out@[idx as int]@);
            proof {
                lemma_take_step(ts, i as int);
                assert(ts[i as int] == q_mul(sc[i as int + 1], buf[idx as int]));
            }
            let m = match c[i + 1].mul(&out[idx]) {
                Some(m) => m,
                None => {
                    proof {
                        assert(n_sum(ts.take(i as int + 1)) is None);
                        lemma_n_sum_prefix_none(ts, i as int + 1);
                        assert(syn_run(sc, sr, t as int + 1, wrapped) is None);
                        lemma_syn_run_none(sc, sr, t as int + 1, n as int, wrapped);
                    }
                    return Err(LpcError::Overflow);
                },
            };
            acc = match acc.add(&m) {
                Some(a) => a,
                None => {
                    proof {
                        assert(n_sum(ts.take(i as int + 1)) is None);
                        lemma_n_sum_prefix_none(ts, i as int + 1);
                        assert(syn_run(sc, sr, t as int + 1, wrapped) is None);
                        lemma_syn_run_none(sc, sr, t as int + 1, n as int, wrapped);
                    }
                    return Err(LpcError::Overflow);
                },
            };
            i = i + 1;
        }
        assert(ts.take(cnt as int) =~= ts);
        assert(n_sum(syn_terms(sc, buf, t as int, wrapped)) == Some(acc@));
        let base = if wrapped {
            out[t]
        } else {
            rsd[t]
        };
        let v = match base.sub(&acc) {
            Some(v) => v,
            None => {
                proof {
                    assert(syn_run(sc, sr, t as int + 1, wrapped) is None);
                    lemma_syn_run_none(sc, sr, t as int + 1, n as int, wrapped);
                }
                return Err(LpcError::Overflow);
            },
        };
        if wrapped {
            out.set(t, v);
            proof {
                assert(views(out@) =~= buf.update(t as int, v@));
            }
        } else {
            out.push(v);
            proof {
                assert(views(out@) =~= buf.push(v@));
            }
        }
        t = t + 1;
    }
    Ok(out)
}

} // verus!
