//! Autocorrelation estimation.
//!
//! Two estimators are supported as an explicit configuration choice. The
//! periodic estimator treats the window as one period of a repeating
//! waveform and wraps the lagged index, summing over the whole window; the
//! windowed estimator stops at the window edge, implicitly zero-padding
//! past it. They differ materially near the boundary.

use vstd::prelude::*;
use crate::LpcError;
use crate::rat::{Qv, Rat, nq, q_eq, q_mul, q_wf};
use crate::sums::{
    n_sum, q_sum, seq_raw, seq_wf, views, lemma_n_sum_prefix_none, lemma_q_sum_rotate,
    lemma_take_step,
};

verus! {

/// The lagged products summed for lag `k`: `s[t] * s[(t+k) mod n]` over the
/// whole window when `periodic`, else `s[t] * s[t+k]` up to the edge.
pub open spec fn acf_terms(s: Seq<Qv>, k: int, periodic: bool) -> Seq<Qv> {
    if periodic {
        Seq::new(s.len(), |t: int| q_mul(s[t], s[(t + k) % (s.len() as int)]))
    } else {
        Seq::new((s.len() - k) as nat, |t: int| q_mul(s[t], s[t + k]))
    }
}

/// The checked estimator value at lag `k`: `None` when a reduced partial
/// value no longer fits the representation.
pub open spec fn acf_at(s: Seq<Qv>, k: int, periodic: bool) -> Option<Qv> {
    n_sum(acf_terms(s, k, periodic))
}

/// The exact estimator value at lag `k`.
pub open spec fn acf_exact(s: Seq<Qv>, k: int, periodic: bool) -> Qv {
    q_sum(acf_terms(s, k, periodic))
}

/// Estimate autocorrelation at lags `0 ..= order`.
///
/// Returns the vector of lagged sums; `InvalidArgument` exactly when the
/// order does not leave a full lag range inside the window (this also
/// rejects an empty signal), and `Overflow` exactly when some lag's checked
/// sum fails.
pub fn auto_corr(data: &Vec<Rat>, order: usize, periodic: bool) -> (r: Result<Vec<Rat>, LpcError>)
    requires
        seq_wf(views(data@)),
        data@.len() <= usize::MAX / 2,
    ensures
        match r {
            Ok(acf) => {
                &&& order < data@.len()
                &&& acf@.len() == order + 1
                &&& seq_wf(views(acf@))
                &&& forall|k: int|
                    0 <= k <= order ==> acf_at(views(data@), k, periodic) == Some(
                        #[trigger] views(acf@)[k],
                    )
            },
            Err(e) => {
                &&& e == LpcError::InvalidArgument <==> order >= data@.len()
                &&& e != LpcError::Degenerate
                &&& e == LpcError::Overflow ==> exists|k: int|
                    0 <= k <= order && #[trigger] acf_at(views(data@), k, periodic) is None
            },
        },
{
    let ghost s = views(data@);
    if order >= data.len() {
        return Err(LpcError::InvalidArgument);
    }
    let n = data.len();
    let mut acf: Vec<Rat> = Vec::new();
    let mut k: usize = 0;
    while k <= order
        invariant
            n == data@.len(),
            order < n,
            n <= usize::MAX / 2,
            s == views(data@),
            seq_wf(s),
            k <= order + 1,
            acf@.len() == k,
            forall|j: int| 0 <= j < k ==> q_wf(#[trigger] acf@[j]@),
            forall|j: int| 0 <= j < k ==> acf_at(s, j, periodic) == Some(#[trigger] acf@[j]@),
        decreases order + 1 - k,
    {
        let count = if periodic { n } else { n - k };
        let ghost ts = acf_terms(s, k as int, periodic);
        assert(ts.len() == count);
        proof {
            assert forall|t: int| 0 <= t < ts.len() implies crate::rat::q_raw(
                #[trigger] ts[t],
            ) by {
                let j = if periodic { (t + k) % (n as int) } else { t + k };
                assert(0 <= j < n);
                assert(ts[t] == q_mul(s[t], s[j]));
                crate::rat::lemma_q_raw_ops(s[t], s[j]);
            }
        }
        let mut acc = Rat::from_int(0);
        let mut t: usize = 0;
        while t < count
            invariant
                n == data@.len(),
                order < n,
                n <= usize::MAX / 2,
                s == views(data@),
                seq_wf(s),
                k <= order,
                count as int == if periodic { n as int } else { n as int - k as int },
                ts == acf_terms(s, k as int, periodic),
                ts.len() == count,
                t <= count,
                q_wf(acc@),
                n_sum(ts.take(t as int)) == Some(acc@),
            decreases count - t,
        {
            let idx = if periodic {
                (t + k) % n
            } else {
                t + k
            };
            assert(s[idx as int] == data@[idx as int]@ && s[t as int] == data@[t as int]@);
            proof {
                lemma_take_step(ts, t as int);
            }
            let m = match data[t].mul(&data[idx]) {
                Some(m) => m,
                None => {
                    proof {
                        assert(nq(ts[t as int]) is None);
                        assert(n_sum(ts.take(t as int + 1)) is None);
                        lemma_n_sum_prefix_none(ts, t as int + 1);
                        assert(0 <= k as int <= order && acf_at(
                            views(data@),
                            k as int,
                            periodic,
                        ) is None);
                    }
                    return Err(LpcError::Overflow);
                },
            };
            assert(nq(ts[t as int]) == Some(m@));
            acc = match acc.add(&m) {
                Some(a) => a,
                None => {
                    proof {
                        assert(n_sum(ts.take(t as int + 1)) is None);
                        lemma_n_sum_prefix_none(ts, t as int + 1);
                        assert(0 <= k as int <= order && acf_at(
                            views(data@),
                            k as int,
                            periodic,
                        ) is None);
                    }
                    return Err(LpcError::Overflow);
                },
            };
            t = t + 1;
        }
        assert(ts.take(count as int) =~= ts);
        assert(acf_at(s, k as int, periodic) == Some(acc@));
        acf.push(acc);
        k = k + 1;
    }
    proof {
        assert(views(acf@).len() == acf@.len());
        assert forall|j: int| 0 <= j < acf@.len() implies #[trigger] views(acf@)[j] == acf@[j]@
            && q_wf(views(acf@)[j]) && acf_at(s, j, periodic) == Some(views(acf@)[j]) by {
            assert(q_wf(acf@[j]@));
            assert(acf_at(s, j, periodic) == Some(acf@[j]@));
        }
    }
    Ok(acf)
}

/// The periodic estimator is symmetric in the lag: over a full period the
/// sum at lag `k` has the value of the sum at lag `(n - k) mod n`.
pub proof fn lemma_periodic_symmetry(s: Seq<Qv>, k: int)
    requires
        seq_raw(s),
        s.len() >= 1,
        0 <= k < s.len(),
    ensures
        q_eq(acf_exact(s, k, true), acf_exact(s, ((s.len() - k) % (s.len() as int)) as int, true)),
{
    let n = s.len() as int;
    let ts = acf_terms(s, k, true);
    let k2 = (n - k) % n;
    let ts2 = acf_terms(s, k2, true);
    assert(0 <= k2 < n);
    assert forall|t: int| 0 <= t < n implies crate::rat::q_raw(#[trigger] ts[t])
        && crate::rat::q_raw(ts2[t]) by {
        assert(0 <= (t + k) % n < n && 0 <= (t + k2) % n < n);
        assert(ts[t] == q_mul(s[t], s[(t + k) % n]));
        assert(ts2[t] == q_mul(s[t], s[(t + k2) % n]));
        crate::rat::lemma_q_raw_ops(s[t], s[(t + k) % n]);
        crate::rat::lemma_q_raw_ops(s[t], s[(t + k2) % n]);
    }
    let rot = ts.subrange(n - k, n) + ts.subrange(0, n - k);
    assert(ts2 =~= rot) by {
        broadcast use vstd::arithmetic::mul::group_mul_properties;

        assert forall|u: int| 0 <= u < n implies ts2[u] == rot[u] by {
            let p = (u + (n - k)) % n;
            assert(0 <= p < n);
            assert((p + k) % n == u) by (nonlinear_arith)
                requires
                    0 <= u < n,
                    0 <= k < n,
                    p == (u + (n - k)) % n,
            ;
            assert(k2 == if k == 0 { 0int } else { n - k }) by (nonlinear_arith)
                requires
                    0 <= k < n,
                    k2 == (n - k) % n,
            ;
            assert(p == if u < k { u + (n - k) } else { u - k }) by (nonlinear_arith)
                requires
                    0 <= u < n,
                    0 <= k < n,
                    p == (u + (n - k)) % n,
            ;
            if u < k {
                assert(rot[u] == ts[u + (n - k)]);
            } else {
                assert(rot[u] == ts[u - k]);
            }
            assert(rot[u] == ts[p]);
            assert(ts[p] == q_mul(s[p], s[(p + k) % n]));
            assert(ts2[u] == q_mul(s[u], s[(u + k2) % n]));
            assert((u + k2) % n == p) by (nonlinear_arith)
                requires
                    0 <= u < n,
                    0 <= k < n,
                    k2 == (n - k) % n,
                    p == (u + (n - k)) % n,
            ;
            assert(q_mul(s[p], s[u]) == q_mul(s[u], s[p]));
        }
    }
    lemma_q_sum_rotate(ts, n - k);
}


/// A constant signal of value `c` has, in the periodic mode, the same lagged
/// products at every lag: each term is `c * c`, and every lag's sum has the
/// value `n * c^2`.
pub proof fn lemma_periodic_acf_constant(s: Seq<Qv>, c: Qv, k: int)
    requires
        seq_raw(s),
        s.len() >= 1,
        forall|t: int| 0 <= t < s.len() ==> #[trigger] s[t] == c,
        0 <= k,
    ensures
        acf_terms(s, k, true) =~= Seq::new(s.len(), |t: int| q_mul(c, c)),
        acf_at(s, k, true) == acf_at(s, 0, true),
        q_eq(acf_exact(s, k, true), (s.len() as int * (c.0 * c.0), c.1 * c.1)),
{
    let n = s.len() as int;
    let ts = acf_terms(s, k, true);
    assert forall|t: int| 0 <= t < n implies #[trigger] ts[t] == q_mul(c, c) by {
        assert(0 <= (t + k) % n < n);
        assert(ts[t] == q_mul(s[t], s[(t + k) % n]));
    }
    assert(ts =~= Seq::new(s.len(), |t: int| q_mul(c, c)));
    assert(acf_terms(s, 0, true) =~= Seq::new(s.len(), |t: int| q_mul(c, c))) by {
        assert forall|t: int| 0 <= t < n implies #[trigger] acf_terms(s, 0, true)[t] == q_mul(
            c,
            c,
        ) by {
            assert(0 <= (t + 0) % n < n);
            assert(acf_terms(s, 0, true)[t] == q_mul(s[t], s[(t + 0) % n]));
        }
    }
    crate::rat::lemma_q_raw_ops(c, c);
    crate::sums::lemma_q_sum_constant(q_mul(c, c), s.len());
}

} // verus!
