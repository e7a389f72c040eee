//! Sums of sequences of rationals.
//!
//! Every component accumulates sums of products in a loop over stored
//! rationals. `q_sum` is the exact mathematical sum of a sequence of pairs;
//! `n_sum` is the model of the checked loop, which reduces each term and each
//! partial sum and gives up when a reduced value no longer fits. The lemmas
//! relate the two and give the algebra the filter and solver proofs need.

use vstd::prelude::*;
use crate::rat::{
    Qv, Rat, nq, nq_add, q_add, q_eq, q_raw, q_wf, lemma_add_cong, lemma_nq, lemma_q_eq_trans,
    lemma_q_raw_ops,
};

verus! {

/// Every pair of the sequence has a positive denominator.
pub open spec fn seq_raw(s: Seq<Qv>) -> bool {
    forall|i: int| 0 <= i < s.len() ==> q_raw(#[trigger] s[i])
}

/// Every pair of the sequence fits the stored representation.
pub open spec fn seq_wf(s: Seq<Qv>) -> bool {
    forall|i: int| 0 <= i < s.len() ==> q_wf(#[trigger] s[i])
}

/// The models of a sequence of stored rationals.
pub open spec fn views(v: Seq<Rat>) -> Seq<Qv> {
    v.map_values(|r: Rat| r@)
}

/// Exact sum of a sequence of pairs; zero for the empty sequence.
pub open spec fn q_sum(ts: Seq<Qv>) -> Qv
    decreases ts.len(),
{
    if ts.len() == 0 {
        (0int, 1int)
    } else {
        q_add(q_sum(ts.drop_last()), ts.last())
    }
}

/// Checked reducing sum: each term is reduced as it enters, each partial sum
/// is reduced as it is formed, and `None` reports the first value whose
/// reduced form does not fit the representation.
pub open spec fn n_sum(ts: Seq<Qv>) -> Option<Qv>
    decreases ts.len(),
{
    if ts.len() == 0 {
        Some((0int, 1int))
    } else {
        match n_sum(ts.drop_last()) {
            Some(acc) => match nq(ts.last()) {
                Some(m) => nq_add(acc, m),
                None => None,
            },
            None => None,
        }
    }
}

/// An exact sum of raw pairs is a raw pair.
pub proof fn lemma_q_sum_raw(ts: Seq<Qv>)
    requires
        seq_raw(ts),
    ensures
        q_raw(q_sum(ts)),
    decreases ts.len(),
{
    if ts.len() > 0 {
        lemma_q_sum_raw(ts.drop_last());
        lemma_q_raw_ops(q_sum(ts.drop_last()), ts.last());
    }
}

/// When the checked sum completes it is the exact sum, stored-representable.
pub proof fn lemma_n_sum_sound(ts: Seq<Qv>)
    requires
        seq_raw(ts),
    ensures
        n_sum(ts) matches Some(v) ==> q_wf(v) && q_eq(v, q_sum(ts)),
    decreases ts.len(),
{
    if ts.len() > 0 && n_sum(ts) is Some {
        let prev = ts.drop_last();
        lemma_n_sum_sound(prev);
        lemma_q_sum_raw(prev);
        let acc = n_sum(prev)->0;
        lemma_nq(ts.last());
        let m = nq(ts.last())->0;
        lemma_q_raw_ops(acc, m);
        lemma_nq(q_add(acc, m));
        lemma_add_cong(acc, q_sum(prev), m, ts.last());
        let v = n_sum(ts)->0;
        lemma_q_raw_ops(q_sum(prev), ts.last());
        lemma_q_eq_trans(v, q_add(acc, m), q_add(q_sum(prev), ts.last()));
    }
}

/// A failed checked partial sum fails the whole checked sum.
pub proof fn lemma_n_sum_prefix_none(ts: Seq<Qv>, i: int)
    requires
        0 <= i <= ts.len(),
        n_sum(ts.take(i)) is None,
    ensures
        n_sum(ts) is None,
    decreases ts.len(),
{
    if i < ts.len() {
        assert(ts.drop_last().take(i) =~= ts.take(i));
        lemma_n_sum_prefix_none(ts.drop_last(), i);
    } else {
        assert(ts.take(i) =~= ts);
    }
}

/// One step of the checked sum, phrased over a prefix as a loop does it.
pub proof fn lemma_take_step(ts: Seq<Qv>, i: int)
    requires
        0 <= i < ts.len(),
    ensures
        ts.take(i + 1).drop_last() =~= ts.take(i),
        ts.take(i + 1).last() == ts[i],
{
}

/// Sums of pointwise equal-valued sequences are equal in value.
pub proof fn lemma_q_sum_cong(a: Seq<Qv>, b: Seq<Qv>)
    requires
        seq_raw(a),
        seq_raw(b),
        a.len() == b.len(),
        forall|i: int| 0 <= i < a.len() ==> q_eq(#[trigger] a[i], #[trigger] b[i]),
    ensures
        q_eq(q_sum(a), q_sum(b)),
    decreases a.len(),
{
    if a.len() > 0 {
        let pa = a.drop_last();
        let pb = b.drop_last();
        lemma_q_sum_cong(pa, pb);
        lemma_q_sum_raw(pa);
        lemma_q_sum_raw(pb);
        lemma_add_cong(q_sum(pa), q_sum(pb), a.last(), b.last());
    }
}

/// The exact sum splits over concatenation.
pub proof fn lemma_q_sum_concat(a: Seq<Qv>, b: Seq<Qv>)
    requires
        seq_raw(a),
        seq_raw(b),
    ensures
        q_eq(q_sum(a + b), q_add(q_sum(a), q_sum(b))),
    decreases b.len(),
{
    lemma_q_sum_raw(a);
    lemma_q_sum_raw(b);
    if b.len() == 0 {
        assert(a + b =~= a);
        lemma_q_sum_raw(a + b);
        assert(q_add(q_sum(a), (0int, 1int)) == (q_sum(a).0, q_sum(a).1));
        lemma_q_raw_ops(q_sum(a), q_sum(b));
    } else {
        let bp = b.drop_last();
        lemma_q_sum_concat(a, bp);
        assert((a + b).drop_last() =~= a + bp);
        lemma_q_sum_raw(a + bp);
        lemma_q_sum_raw(bp);
        lemma_q_raw_ops(q_sum(a), q_sum(bp));
        // sum(a + b) = sum(a + bp) + b.last()  ~=  (sum(a) + sum(bp)) + b.last()
        lemma_add_cong(q_sum(a + bp), q_add(q_sum(a), q_sum(bp)), b.last(), b.last());
        // (sum(a) + sum(bp)) + b.last() == sum(a) + (sum(bp) + b.last()) up to value
        lemma_q_add_assoc(q_sum(a), q_sum(bp), b.last());
        lemma_q_raw_ops(q_add(q_sum(a), q_sum(bp)), b.last());
        lemma_q_raw_ops(q_sum(bp), b.last());
        lemma_q_raw_ops(q_sum(a), q_add(q_sum(bp), b.last()));
        lemma_q_eq_trans(
            q_sum(a + b),
            q_add(q_add(q_sum(a), q_sum(bp)), b.last()),
            q_add(q_sum(a), q_add(q_sum(bp), b.last())),
        );
    }
}

/// The exact sum is its first term plus the exact sum of the rest.
pub proof fn lemma_q_sum_split_first(ts: Seq<Qv>)
    requires
        seq_raw(ts),
        ts.len() >= 1,
    ensures
        q_eq(q_sum(ts), q_add(ts[0], q_sum(ts.skip(1)))),
{
    let a = ts.take(1);
    let b = ts.skip(1);
    assert(a + b =~= ts);
    assert(seq_raw(a) && seq_raw(b));
    lemma_q_sum_concat(a, b);
    assert(a.drop_last() =~= Seq::<Qv>::empty());
    assert(a.last() == ts[0]);
    assert(a.len() == 1);
    assert(q_sum(a.drop_last()) == (0int, 1int));
    assert(q_sum(a) == q_add(q_sum(a.drop_last()), a.last()));
    assert(q_sum(a) == q_add((0int, 1int), ts[0]));
    assert(q_add((0int, 1int), ts[0]) == ((ts[0].0, ts[0].1))) by {
        broadcast use vstd::arithmetic::mul::group_mul_properties;

    }
    lemma_q_sum_raw(b);
    lemma_q_raw_ops(ts[0], q_sum(b));
    lemma_q_sum_raw(ts);
}

/// The exact sum of `n` copies of one pair is `n` times it.
pub proof fn lemma_q_sum_constant(w: Qv, n: nat)
    requires
        q_raw(w),
    ensures
        q_eq(q_sum(Seq::new(n, |i: int| w)), (n as int * w.0, w.1)),
    decreases n,
{
    let ts = Seq::new(n, |i: int| w);
    if n == 0 {
        assert(q_sum(ts) == (0int, 1int));
        assert(q_eq((0int, 1int), (0int * w.0, w.1))) by (nonlinear_arith)
            requires
                w.1 >= 1,
        ;
    } else {
        let prev = Seq::new((n - 1) as nat, |i: int| w);
        assert(ts.drop_last() =~= prev);
        lemma_q_sum_constant(w, (n - 1) as nat);
        lemma_q_sum_raw(prev);
        lemma_add_cong(q_sum(prev), ((n - 1) as int * w.0, w.1), w, w);
        assert(q_eq(q_add(((n - 1) as int * w.0, w.1), w), (n as int * w.0, w.1)))
            by (nonlinear_arith)
            requires
                w.1 >= 1,
        ;
        lemma_q_raw_ops(q_sum(prev), w);
        lemma_q_raw_ops(((n - 1) as int * w.0, w.1), w);
        lemma_q_eq_trans(
            q_sum(ts),
            q_add(((n - 1) as int * w.0, w.1), w),
            (n as int * w.0, w.1),
        );
    }
}

/// Exact addition of pairs is associative up to value.
pub proof fn lemma_q_add_assoc(a: Qv, b: Qv, c: Qv)
    requires
        q_raw(a),
        q_raw(b),
        q_raw(c),
    ensures
        q_eq(q_add(q_add(a, b), c), q_add(a, q_add(b, c))),
{
    broadcast use vstd::arithmetic::mul::group_mul_properties;

    lemma_q_raw_ops(a, b);
    lemma_q_raw_ops(b, c);
}

/// The exact sum of a full period is unchanged by rotation.
pub proof fn lemma_q_sum_rotate(ts: Seq<Qv>, i: int)
    requires
        seq_raw(ts),
        0 <= i <= ts.len(),
    ensures
        q_eq(q_sum(ts.subrange(i, ts.len() as int) + ts.subrange(0, i)), q_sum(ts)),
{
    let a = ts.subrange(0, i);
    let b = ts.subrange(i, ts.len() as int);
    assert(seq_raw(a) && seq_raw(b));
    lemma_q_sum_concat(b, a);
    lemma_q_sum_concat(a, b);
    assert(a + b =~= ts);
    // both concatenations reduce to the same symmetric pair expression
    assert(q_add(q_sum(b), q_sum(a)) == q_add(q_sum(a), q_sum(b))) by {
        broadcast use vstd::arithmetic::mul::group_mul_properties;

    }
    lemma_q_sum_raw(ts);
    lemma_q_sum_raw(a);
    lemma_q_sum_raw(b);
    assert(seq_raw(b + a)) by {
        assert(forall|j: int|
            0 <= j < (b + a).len() ==> q_raw(#[trigger] (b + a)[j]) && ((b + a)[j] == if j
                < b.len() {
                b[j]
            } else {
                a[j - b.len()]
            }));
    }
    lemma_q_sum_raw(b + a);
    lemma_q_raw_ops(q_sum(a), q_sum(b));
    lemma_q_eq_trans(q_sum(b + a), q_add(q_sum(a), q_sum(b)), q_sum(ts));
}

} // verus!
