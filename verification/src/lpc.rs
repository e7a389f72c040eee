//! The LPC engine: autocorrelation, solver and filters behind one type.
//!
//! An `Lpc` owns its model buffers and recomputes them fully on every call
//! to `calc`; the three documented design forks (periodic or windowed
//! estimator, raw or clamped recursion, wrapped or zero-history filters) are
//! explicit configuration, chosen at construction.

use vstd::prelude::*;
use crate::LpcError;
use crate::rat::{Qv, Rat, q_wf};
use crate::sums::{seq_wf, views};
use crate::acf::{acf_at, auto_corr};
use crate::levinson::{ld_run, levinson_durbin, LdOut};
use crate::filter::{ana_at, analysis_filter, syn_run, synthesis_filter};

verus! {

/// The autocorrelation vector that `calc` computes for a signal, when every
/// lag's checked sum completes.
pub open spec fn acf_all(s: Seq<Qv>, order: int, periodic: bool) -> Option<Seq<Qv>> {
    if forall|k: int| 0 <= k <= order ==> (#[trigger] acf_at(s, k, periodic)) is Some {
        Some(Seq::new((order + 1) as nat, |k: int| acf_at(s, k, periodic)->0))
    } else {
        None
    }
}

/// A linear-prediction model of a configurable order.
pub struct Lpc {
    order: usize,
    periodic: bool,
    guarded: bool,
    wrapped: bool,
    acf: Vec<Rat>,
    coef: Vec<Rat>,
    e: Vec<Rat>,
}

impl Lpc {
    /// The configured model order.
    pub closed spec fn spec_order(&self) -> int {
        self.order as int
    }

    /// Whether the estimator wraps the window (periodic) or stops at its
    /// edge (windowed).
    pub closed spec fn spec_periodic(&self) -> bool {
        self.periodic
    }

    /// Whether the recursion clamps an ill-conditioned reflection
    /// coefficient to zero instead of failing.
    pub closed spec fn spec_guarded(&self) -> bool {
        self.guarded
    }

    /// Whether the filters index circularly or with zero history.
    pub closed spec fn spec_wrapped(&self) -> bool {
        self.wrapped
    }

    /// The stored autocorrelation values.
    pub closed spec fn spec_acf(&self) -> Seq<Qv> {
        views(self.acf@)
    }

    /// The stored coefficient values.
    pub closed spec fn spec_coef(&self) -> Seq<Qv> {
        views(self.coef@)
    }

    /// The stored error-energy values.
    pub closed spec fn spec_e(&self) -> Seq<Qv> {
        views(self.e@)
    }

    /// Every stored value fits the representation.
    pub closed spec fn inv(&self) -> bool {
        &&& seq_wf(views(self.acf@))
        &&& seq_wf(views(self.coef@))
        &&& seq_wf(views(self.e@))
    }

    /// A fresh model of the given order with the default configuration:
    /// periodic estimator, raw recursion, wrapped filters.
    pub fn new(order: usize) -> (r: Lpc)
        ensures
            r.spec_order() == order,
            r.spec_periodic() && !r.spec_guarded() && r.spec_wrapped(),
            r.spec_acf().len() == 0 && r.spec_coef().len() == 0 && r.spec_e().len() == 0,
            r.inv(),
    {
        let r = Lpc {
            order,
            periodic: true,
            guarded: false,
            wrapped: true,
            acf: Vec::new(),
            coef: Vec::new(),
            e: Vec::new(),
        };
        assert(views(r.acf@) =~= Seq::<Qv>::empty());
        assert(views(r.coef@) =~= Seq::<Qv>::empty());
        assert(views(r.e@) =~= Seq::<Qv>::empty());
        r
    }

    /// A fresh model with every design fork chosen explicitly.
    pub fn with_modes(order: usize, periodic: bool, guarded: bool, wrapped: bool) -> (r: Lpc)
        ensures
            r.spec_order() == order,
            r.spec_periodic() == periodic,
            r.spec_guarded() == guarded,
            r.spec_wrapped() == wrapped,
            r.spec_acf().len() == 0 && r.spec_coef().len() == 0 && r.spec_e().len() == 0,
            r.inv(),
    {
        let r = Lpc { order, periodic, guarded, wrapped, acf: Vec::new(), coef: Vec::new(), e: Vec::new() };
        assert(views(r.acf@) =~= Seq::<Qv>::empty());
        assert(views(r.coef@) =~= Seq::<Qv>::empty());
        assert(views(r.e@) =~= Seq::<Qv>::empty());
        r
    }

    /// Change the order and clear every buffer; the modes stay.
    pub fn order(&mut self, order: usize)
        ensures
            final(self).spec_order() == order,
            final(self).spec_periodic() == old(self).spec_periodic(),
            final(self).spec_guarded() == old(self).spec_guarded(),
            final(self).spec_wrapped() == old(self).spec_wrapped(),
            final(self).spec_acf().len() == 0 && final(self).spec_coef().len() == 0,
            final(self).spec_e().len() == 0,
            final(self).inv(),
    {
        self.order = order;
        self.acf = Vec::new();
        self.coef = Vec::new();
        self.e = Vec::new();
        assert(views(self.acf@) =~= Seq::<Qv>::empty());
        assert(views(self.coef@) =~= Seq::<Qv>::empty());
        assert(views(self.e@) =~= Seq::<Qv>::empty());
    }

    /// Estimate the autocorrelation of `data` and solve for the model:
    /// afterwards the stored autocorrelation is what `acf_all` names, and
    /// the stored coefficients and energies are the `Good` outcome of the
    /// checked recursion on it. On an error every buffer is cleared;
    /// `InvalidArgument` exactly when the order does not fit the window,
    /// `Degenerate` and `Overflow` exactly when the checked pipeline says so.
    pub fn calc(&mut self, data: &Vec<Rat>) -> (r: Result<(), LpcError>)
        requires
            seq_wf(views(data@)),
            data@.len() <= usize::MAX / 2,
        ensures
            final(self).spec_order() == old(self).spec_order(),
            final(self).spec_periodic() == old(self).spec_periodic(),
            final(self).spec_guarded() == old(self).spec_guarded(),
            final(self).spec_wrapped() == old(self).spec_wrapped(),
            final(self).inv(),
            match r {
                Ok(()) => {
                    &&& old(self).spec_order() < data@.len()
                    &&& acf_all(views(data@), old(self).spec_order(), old(self).spec_periodic())
                        == Some(final(self).spec_acf())
                    &&& ld_run(
                        final(self).spec_acf(),
                        old(self).spec_guarded(),
                        old(self).spec_order(),
                    ) == (LdOut::Good { c: final(self).spec_coef(), e: final(self).spec_e() })
                    &&& final(self).spec_coef().len() == old(self).spec_order() + 1
                    &&& final(self).spec_e().len() == old(self).spec_order() + 1
                    &&& final(self).spec_coef()[0] == (1int, 1int)
                },
                Err(e) => {
                    &&& final(self).spec_acf().len() == 0 && final(self).spec_coef().len() == 0
                        && final(self).spec_e().len() == 0
                    &&& e == LpcError::InvalidArgument <==> old(self).spec_order() >= data@.len()
                    &&& e == LpcError::Degenerate ==> {
                        &&& acf_all(
                            views(data@),
                            old(self).spec_order(),
                            old(self).spec_periodic(),
                        ) matches Some(av)
                        &&& ld_run(av, old(self).spec_guarded(), old(self).spec_order())
                            == LdOut::Degenerate
                    }
                    &&& e == LpcError::Overflow ==> (acf_all(
                        views(data@),
                        old(self).spec_order(),
                        old(self).spec_periodic(),
                    ) is None || (acf_all(
                        views(data@),
                        old(self).spec_order(),
                        old(self).spec_periodic(),
                    ) matches Some(av) && ld_run(av, old(self).spec_guarded(), old(self).spec_order())
                        == LdOut::Overflow))
                },
            },
    {
        let ghost s = views(data@);
        self.acf = Vec::new();
        self.coef = Vec::new();
        self.e = Vec::new();
        assert(views(self.acf@) =~= Seq::<Qv>::empty());
        assert(views(self.coef@) =~= Seq::<Qv>::empty());
        assert(views(self.e@) =~= Seq::<Qv>::empty());
        let acf = match auto_corr(data, self.order, self.periodic) {
            Ok(v) => v,
            Err(e) => {
                proof {
                    if e == LpcError::Overflow {
                        assert(acf_all(s, self.order as int, self.periodic) is None);
                    }
                }
                return Err(e);
            },
        };
        proof {
            assert forall|k: int| 0 <= k <= self.order as int implies (#[trigger] acf_at(
                s,
                k,
                self.periodic,
            )) is Some by {
                assert(acf_at(s, k, self.periodic) == Some(views(acf@)[k]));
            }
            assert(acf_all(s, self.order as int, self.periodic) matches Some(av) && av =~= views(
                acf@,
            ));
        }
        let (cv, ev) = match levinson_durbin(&acf, self.order, self.guarded) {
            Ok(v) => v,
            Err(e) => {
                return Err(e);
            },
        };
        self.acf = acf;
        self.coef = cv;
        self.e = ev;
        Ok(())
    }

    /// The solved coefficient vector, `coef[0]` fixed at one.
    pub fn coef(&self) -> (r: &Vec<Rat>)
        ensures
            views(r@) == self.spec_coef(),
    {
        &self.coef
    }

    /// The solved error-energy vector.
    pub fn error_energy(&self) -> (r: &Vec<Rat>)
        ensures
            views(r@) == self.spec_e(),
    {
        &self.e
    }

    /// The estimated autocorrelation vector.
    pub fn autocorrelation(&self) -> (r: &Vec<Rat>)
        ensures
            views(r@) == self.spec_acf(),
    {
        &self.acf
    }

    /// Fill `pred_err` with the forward prediction error of `input` under
    /// the solved coefficients, in the configured boundary mode. The buffer
    /// must already have the input's length; on any error it is unchanged.
    pub fn prediction_error(&self, input: &Vec<Rat>, pred_err: &mut Vec<Rat>) -> (r: Result<
        (),
        LpcError,
    >)
        requires
            self.inv(),
            seq_wf(views(input@)),
            input@.len() <= usize::MAX / 2,
        ensures
            match r {
                Ok(()) => {
                    &&& old(pred_err)@.len() == input@.len()
                    &&& 1 <= self.spec_coef().len() <= input@.len()
                    &&& final(pred_err)@.len() == input@.len()
                    &&& seq_wf(views(final(pred_err)@))
                    &&& forall|t: int|
                        0 <= t < input@.len() ==> ana_at(
                            self.spec_coef(),
                            views(input@),
                            t,
                            self.spec_wrapped(),
                        ) == Some(#[trigger] views(final(pred_err)@)[t])
                },
                Err(e) => {
                    &&& final(pred_err)@ == old(pred_err)@
                    &&& e == LpcError::InvalidArgument <==> (old(pred_err)@.len() != input@.len()
                        || !(1 <= self.spec_coef().len() <= input@.len()))
                    &&& e != LpcError::Degenerate
                    &&& e == LpcError::Overflow ==> exists|t: int|
                        0 <= t < input@.len() && #[trigger] ana_at(
                            self.spec_coef(),
                            views(input@),
                            t,
                            self.spec_wrapped(),
                        ) is None
                },
            },
    {
        if pred_err.len() != input.len() {
            return Err(LpcError::InvalidArgument);
        }
        match analysis_filter(&self.coef, input, self.wrapped) {
            Ok(res) => {
                *pred_err = res;
                Ok(())
            },
            Err(e) => Err(e),
        }
    }

    /// Reconstruct a signal from a residual under the solved coefficients,
    /// in the configured boundary mode, into `output`. The buffer must
    /// already have the residual's length; on any error it is unchanged.
    pub fn inverse_prediction_error(&self, pred_err: &Vec<Rat>, output: &mut Vec<Rat>) -> (r:
        Result<(), LpcError>)
        requires
            self.inv(),
            seq_wf(views(pred_err@)),
            pred_err@.len() <= usize::MAX / 2,
        ensures
            match r {
                Ok(()) => {
                    &&& old(output)@.len() == pred_err@.len()
                    &&& 1 <= self.spec_coef().len() <= pred_err@.len()
                    &&& final(output)@.len() == pred_err@.len()
                    &&& seq_wf(views(final(output)@))
                    &&& syn_run(
                        self.spec_coef(),
                        views(pred_err@),
                        pred_err@.len() as int,
                        self.spec_wrapped(),
                    ) == Some(views(final(output)@))
                },
                Err(e) => {
                    &&& final(output)@ == old(output)@
                    &&& e == LpcError::InvalidArgument <==> (old(output)@.len() != pred_err@.len()
                        || !(1 <= self.spec_coef().len() <= pred_err@.len()))
                    &&& e != LpcError::Degenerate
                    &&& e == LpcError::Overflow ==> syn_run(
                        self.spec_coef(),
                        views(pred_err@),
                        pred_err@.len() as int,
                        self.spec_wrapped(),
                    ) is None
                },
            },
    {
        if output.len() != pred_err.len() {
            return Err(LpcError::InvalidArgument);
        }
        match synthesis_filter(&self.coef, pred_err, self.wrapped) {
            Ok(res) => {
                *output = res;
                Ok(())
            },
            Err(e) => Err(e),
        }
    }
}

/// One-call solver: periodic autocorrelation and the clamped recursion,
/// returning the coefficient vector of the order-`p` model.
pub fn lpc_coef(s: &Vec<Rat>, p: usize) -> (r: Result<Vec<Rat>, LpcError>)
    requires
        seq_wf(views(s@)),
        s@.len() <= usize::MAX / 2,
    ensures
        match r {
            Ok(cv) => {
                &&& p < s@.len()
                &&& acf_all(views(s@), p as int, true) matches Some(av) && ld_run(
                    av,
                    true,
                    p as int,
                ) matches LdOut::Good { c, e } && c == views(cv@)
                &&& cv@.len() == p + 1
                &&& views(cv@)[0] == (1int, 1int)
                &&& seq_wf(views(cv@))
            },
            Err(e) => {
                &&& e == LpcError::InvalidArgument <==> p >= s@.len()
                &&& e == LpcError::Degenerate ==> (acf_all(views(s@), p as int, true) matches Some(
                    av,
                ) && ld_run(av, true, p as int) == LdOut::Degenerate)
                &&& e == LpcError::Overflow ==> (acf_all(views(s@), p as int, true) is None
                    || (acf_all(views(s@), p as int, true) matches Some(av) && ld_run(
                    av,
                    true,
                    p as int,
                ) == LdOut::Overflow))
            },
        },
{
    let acf = match auto_corr(s, p, true) {
        Ok(v) => v,
        Err(e) => {
            proof {
                if e == LpcError::Overflow {
                    assert(acf_all(views(s@), p as int, true) is None);
                }
            }
            return Err(e);
        },
    };
    proof {
        assert forall|k: int| 0 <= k <= p as int implies (#[trigger] acf_at(
            views(s@),
            k,
            true,
        )) is Some by {
            assert(acf_at(views(s@), k, true) == Some(views(acf@)[k]));
        }
        assert(acf_all(views(s@), p as int, true) matches Some(av) && av =~= views(acf@));
    }
    match levinson_durbin(&acf, p, true) {
        Ok((cv, _ev)) => Ok(cv),
        Err(e) => Err(e),
    }
}

} // verus!
