//! Runs of belief propagation within a search.

use vstd::prelude::*;

use super::adapt::{all_blended, blend_with_prior, SLGMBPDecoder};
use super::evaluate::are_ratios;
use crate::arith::{abs, lemma_sum_bound, lemma_sum_push, sum, GAIN_LIMIT};
use crate::decoder::{are_bits, zero_bits};
use crate::matrix::Bit;
use crate::min_sum::{coins_at, is_gain, BpModel, MinSumBPDecoder};
use crate::relay::are_gains;

verus! {

/// How a phase ended.
#[derive(Clone, Debug)]
pub struct PhaseOutcome {
    pub decoding: Vec<Bit>,
    pub posterior: Vec<i64>,
    pub iterations: usize,
    pub success: bool,
}

/// What the outcome of a phase holds.
#[verifier::ext_equal]
pub struct PhaseModel {
    pub decoding: Seq<Bit>,
    pub posterior: Seq<i64>,
    pub iterations: nat,
    pub success: bool,
}

impl View for PhaseOutcome {
    type V = PhaseModel;

    open spec fn view(&self) -> PhaseModel {
        PhaseModel {
            decoding: self.decoding@,
            posterior: self.posterior@,
            iterations: self.iterations as nat,
            success: self.success,
        }
    }
}

/// The outcome of a phase of at most `n` iterations that ended in `d`.
pub open spec fn outcome(d: BpModel, det: Seq<Bit>, n: nat) -> PhaseModel {
    PhaseModel {
        decoding: d.decoding,
        posterior: d.posterior,
        iterations: d.iteration,
        success: n > 0 && d.converged(det),
    }
}

/// The magnitudes of the sums of the posteriors after each iteration of a phase, in all.
pub open spec fn drift(d: BpModel, det: Seq<Bit>, n: nat) -> int
    decreases n,
{
    if n == 0 {
        0
    } else {
        let next = d.iterate(det, Seq::empty()).counted();
        abs(sum(next.posterior)) + if next.converged(det) {
            0
        } else {
            drift(next, det, (n - 1) as nat)
        }
    }
}

/// One iteration with memory: the priors are mixed with the last posteriors first.
pub open spec fn mem_step(
    d: BpModel,
    det: Seq<Bit>,
    coins: Seq<Vec<bool>>,
    prior: Seq<i64>,
    gamma: Seq<i64>,
) -> BpModel {
    BpModel {
        priors: all_blended(prior, d.posterior, gamma, d.config.one()),
        ..d
    }.iterate(det, coins_at(coins, d.iteration as int)).counted()
}

/// Iterating with memory until the decoding explains the detectors, `n` times at most.
pub open spec fn mem_run(
    d: BpModel,
    det: Seq<Bit>,
    coins: Seq<Vec<bool>>,
    prior: Seq<i64>,
    gamma: Seq<i64>,
    n: nat,
) -> BpModel
    decreases n,
{
    if n == 0 {
        d
    } else {
        let next = mem_step(d, det, coins, prior, gamma);
        if next.converged(det) {
            next
        } else {
            mem_run(next, det, coins, prior, gamma, (n - 1) as nat)
        }
    }
}

impl SLGMBPDecoder {
    /// A new decoder whose priors and posteriors are `start`.
    pub open spec fn fresh(self, start: Seq<i64>, max_iter: usize, drop: bool) -> BpModel {
        let m = self.check_matrix@;
        BpModel {
            matrix: m,
            config: self.config.template(self.base_min_sum_config@, max_iter, drop),
            priors: start,
            memory: Seq::new(m.cols, |v: int| 0i64),
            alphas: None,
            c2v: Seq::new(m.nnz(), |f: int| 0i64),
            v2c: Seq::new(m.nnz(), |e: int| start[m.row_idx[e] as int]),
            posterior: start,
            decoding: zero_bits(m.cols),
            iteration: 0,
        }
    }

    /// The first phase without memory, from the priors `start`.
    pub open spec fn min_sum_phase(self, det: Seq<Bit>, start: Seq<i64>) -> PhaseModel {
        let n = self.config.t_ms as nat;
        outcome(
            self.fresh(start, self.config.t_ms, false).run(det, Seq::empty(), n),
            det,
            n,
        )
    }

    /// A phase with memory from the posteriors `start`.
    pub open spec fn mem_bp_phase(
        self,
        det: Seq<Bit>,
        coins: Seq<Vec<bool>>,
        prior: Seq<i64>,
        start: Seq<i64>,
        gamma: Seq<i64>,
        max_iter: usize,
        drop: bool,
    ) -> PhaseModel {
        let n = max_iter as nat;
        outcome(
            mem_run(self.fresh(start, max_iter, drop), det, coins, prior, gamma, n),
            det,
            n,
        )
    }

    /// What every phase keeps.
    pub open spec fn phase_fits(self, p: PhaseModel, n: nat) -> bool {
        &&& p.decoding.len() == self.cols()
        &&& are_bits(p.decoding)
        &&& self.fits(p.posterior)
        &&& p.iterations <= n
        &&& p.success ==> p.iterations >= 1
    }

    /// A new decoder whose priors and posteriors are `start`.
    fn fresh_decoder(&self, start: Vec<i64>, max_iter: usize, drop: bool) -> (r: MinSumBPDecoder)
        requires
            self.wf(),
            self.fits(start@),
        ensures
            r@ == self.fresh(start@, max_iter, drop),
            r@.wf(),
    {
        let config = self.config.min_sum_template(&self.base_min_sum_config, max_iter, drop);
        let mut d = MinSumBPDecoder::new(self.check_matrix.clone(), config);
        d.set_posterior_ratios(start.clone());
        d.set_log_prior_ratio_fixed(start);
        d.initialize_check_to_variable();
        d.initialize_variable_to_check();
        assert(d@ =~= self.fresh(start@, max_iter, drop));
        d
    }

    /// The first phase without memory, with the magnitudes of the sums of its posteriors.
    pub fn run_min_sum_phase(&self, detectors: &Vec<Bit>, init_llr: &Vec<i64>) -> (r: (
        PhaseOutcome,
        i128,
    ))
        requires
            self.wf(),
            self.fits(init_llr@),
            detectors.len() == self.check_matrix@.rows,
        ensures
            r.0@ == self.min_sum_phase(detectors@, init_llr@),
            self.phase_fits(r.0@, self.config.t_ms as nat),
            r.0.success ==> self.check_matrix@.mul_mod2(r.0.decoding@) == detectors@,
            r.1 == drift(
                self.fresh(init_llr@, self.config.t_ms, false),
                detectors@,
                self.config.t_ms as nat,
            ),
            r.1 >= 0,
    {
        let t_ms: usize = self.config.t_ms;
        let mut d = self.fresh_decoder(init_llr.clone(), t_ms, false);
        let ghost start = d@;
        let ghost all = start.run(detectors@, Seq::empty(), t_ms as nat);
        let none: Vec<bool> = Vec::new();
        let mut success: bool = false;
        let mut total: i128 = 0;
        let mut i: usize = 0;
        while i < t_ms && !success
            invariant
                self.wf(),
                d@.wf(),
                d@.matrix == self.check_matrix@,
                are_bits(d@.decoding),
                detectors.len() == self.check_matrix@.rows,
                t_ms <= u32::MAX,
                i <= t_ms,
                d@.iteration == i,
                none.len() == 0,
                success ==> i > 0 && d@.converged(detectors@),
                i > 0 ==> success == d@.converged(detectors@),
                all == (if success {
                    d@
                } else {
                    d@.run(detectors@, Seq::empty(), (t_ms - i) as nat)
                }),
                0 <= total <= i * 0x8000_0000_0000_0000_0000_0000,
                drift(start, detectors@, t_ms as nat) == total + (if success {
                    0
                } else {
                    drift(d@, detectors@, (t_ms - i) as nat)
                }),
            decreases t_ms - i + (if success {
                0int
            } else {
                1
            }),
        {
            assert(none@ =~= Seq::empty());
            d.run_iteration(detectors, &none);
            d.current_iteration = d.current_iteration + 1;
            let s: i128 = total_of(&d.posterior_ratios);
            proof {
                assert(d@.cols() * 0x8000_0000_0000_0000 <= 0xffff_ffff * 0x8000_0000_0000_0000)
                    by (nonlinear_arith)
                    requires
                        d@.cols() <= 0xffff_ffff,
                ;
                assert((i + 1) * 0x8000_0000_0000_0000_0000_0000 == i
                    * 0x8000_0000_0000_0000_0000_0000 + 0x8000_0000_0000_0000_0000_0000)
                    by (nonlinear_arith);
                assert((i + 1) * 0x8000_0000_0000_0000_0000_0000 <= 0xffff_ffff
                    * 0x8000_0000_0000_0000_0000_0000) by (nonlinear_arith)
                    requires
                        i + 1 <= 0xffff_ffff,
                ;
            }
            total = total + (if s < 0 {
                -s
            } else {
                s
            });
            let decoded: Vec<Bit> = d.compute_decoded_detectors();
            success = d.check_convergence(detectors, &decoded);
            i += 1;
        }
        let r = PhaseOutcome {
            decoding: d.decoding,
            posterior: d.posterior_ratios,
            iterations: d.current_iteration,
            success,
        };
        assert(r@ =~= self.min_sum_phase(detectors@, init_llr@));
        (r, total)
    }

    /// A phase with memory from the posteriors `start`.
    pub fn run_mem_bp_phase(
        &self,
        detectors: &Vec<Bit>,
        coins: &Vec<Vec<bool>>,
        prior_llr: &Vec<i64>,
        start: &Vec<i64>,
        gamma_per_variable: &Vec<i64>,
        max_iter: usize,
        enable_variable_message_drop: bool,
    ) -> (r: PhaseOutcome)
        requires
            self.wf(),
            self.fits(prior_llr@),
            self.fits(start@),
            are_gains(gamma_per_variable@, self.cols()),
            detectors.len() == self.check_matrix@.rows,
        ensures
            r@ == self.mem_bp_phase(
                detectors@,
                coins@,
                prior_llr@,
                start@,
                gamma_per_variable@,
                max_iter,
                enable_variable_message_drop,
            ),
            self.phase_fits(r@, max_iter as nat),
            r.success ==> self.check_matrix@.mul_mod2(r.decoding@) == detectors@,
    {
        let mut d = self.fresh_decoder(start.clone(), max_iter, enable_variable_message_drop);
        let ghost first = d@;
        let ghost all = mem_run(
            first,
            detectors@,
            coins@,
            prior_llr@,
            gamma_per_variable@,
            max_iter as nat,
        );
        let one: i64 = self.base_min_sum_config.unit();
        let none: Vec<bool> = Vec::new();
        let mut success: bool = false;
        let mut i: usize = 0;
        while i < max_iter && !success
            invariant
                self.wf(),
                self.fits(prior_llr@),
                are_gains(gamma_per_variable@, self.cols()),
                d@.wf(),
                d@.matrix == self.check_matrix@,
                d@.config.one() == one,
                1 <= one <= GAIN_LIMIT,
                are_bits(d@.decoding),
                detectors.len() == self.check_matrix@.rows,
                i <= max_iter,
                d@.iteration == i,
                none.len() == 0,
                success ==> i > 0 && d@.converged(detectors@),
                i > 0 ==> success == d@.converged(detectors@),
                all == (if success {
                    d@
                } else {
                    mem_run(
                        d@,
                        detectors@,
                        coins@,
                        prior_llr@,
                        gamma_per_variable@,
                        (max_iter - i) as nat,
                    )
                }),
            decreases max_iter - i + (if success {
                0int
            } else {
                1
            }),
        {
            let ghost before = d@;
            let bias: Vec<i64> = blend_all(prior_llr, &d.posterior_ratios, gamma_per_variable, one);
            d.set_log_prior_ratio_fixed(bias);
            if i < coins.len() {
                d.run_iteration(detectors, &coins[i]);
            } else {
                assert(none@ =~= Seq::empty());
                d.run_iteration(detectors, &none);
            }
            d.current_iteration = d.current_iteration + 1;
            assert(d@ == mem_step(before, detectors@, coins@, prior_llr@, gamma_per_variable@));
            let decoded: Vec<Bit> = d.compute_decoded_detectors();
            success = d.check_convergence(detectors, &decoded);
            i += 1;
        }
        let r = PhaseOutcome {
            decoding: d.decoding,
            posterior: d.posterior_ratios,
            iterations: d.current_iteration,
            success,
        };
        assert(r@ =~= outcome(all, detectors@, max_iter as nat));
        r
    }
}

/// Mixes all priors with the posteriors.
fn blend_all(prior: &Vec<i64>, other: &Vec<i64>, weights: &Vec<i64>, one: i64) -> (r: Vec<i64>)
    requires
        1 <= one <= GAIN_LIMIT,
        prior.len() == other.len(),
        are_gains(weights@, prior@.len()),
    ensures
        r@ == all_blended(prior@, other@, weights@, one as int),
        are_ratios(r@),
{
    let mut out: Vec<i64> = Vec::new();
    let mut v: usize = 0;
    while v < prior.len()
        invariant
            1 <= one <= GAIN_LIMIT,
            prior.len() == other.len(),
            are_gains(weights@, prior@.len()),
            v <= prior.len(),
            out.len() == v,
            forall|u: int|
                0 <= u < v ==> out[u] == all_blended(prior@, other@, weights@, one as int)[u] && (
                #[trigger] out[u]) > i64::MIN,
        decreases prior.len() - v,
    {
        assert(is_gain(weights@[v as int]));
        out.push(blend_with_prior(prior[v], other[v], weights[v], one));
        v += 1;
    }
    assert(out@ =~= all_blended(prior@, other@, weights@, one as int));
    out
}

/// The sum of all ratios.
fn total_of(values: &Vec<i64>) -> (r: i128)
    ensures
        r == sum(values@),
        abs(r as int) <= values.len() * 0x8000_0000_0000_0000,
{
    let mut total: i128 = 0;
    let mut v: usize = 0;
    assert(values@.take(0) =~= Seq::empty());
    while v < values.len()
        invariant
            v <= values.len(),
            total == sum(values@.take(v as int)),
        decreases values.len() - v,
    {
        proof {
            let t = values@.take(v as int);
            lemma_sum_push(t, values@[v as int]);
            assert(t.push(values@[v as int]) =~= values@.take(v + 1));
            lemma_sum_bound(t);
            assert(v * 0x8000_0000_0000_0000 <= 0xffff_ffff_ffff_fffe * 0x8000_0000_0000_0000)
                by (nonlinear_arith)
                requires
                    v <= 0xffff_ffff_ffff_fffe,
            ;
        }
        total = total + (values[v] as i128);
        v += 1;
    }
    proof {
        assert(values@.take(v as int) =~= values@);
        lemma_sum_bound(values@);
    }
    total
}

} // verus!
