//! Decoding by a generational search.

use vstd::prelude::*;

use super::adapt::SLGMBPDecoder;
use super::search::{SearchDraws, SearchModel, SlgSearch};
use super::solutions::{solutions_of, CollectedSolution, SolutionModel};
use super::trace::{
    bit_rows_of, spike_trace, ObservedModel, SLGMBPDetailedDynamicsTrace, SLGMBPRuntimeTrace,
    SLGMBPScoreSpikeTrace, TraceModel,
};
use crate::decoder::{
    accepted_fit, decoding_quality, get_decoding_quality, BPExtraResult, DecodeResult, Decoder,
    ResultModel,
};
use crate::matrix::{Bit, MatrixModel, SparseBitMatrix};

verus! {

/// The number of ones below `n`.
pub open spec fn ones_below(bits: Seq<Bit>, n: int) -> nat
    decreases n,
{
    if n <= 0 {
        0
    } else {
        ones_below(bits, n - 1) + if bits[n - 1] == 1 {
            1nat
        } else {
            0
        }
    }
}

/// The number of ones.
pub open spec fn ones(bits: Seq<Bit>) -> nat {
    ones_below(bits, bits.len() as int)
}

impl SLGMBPDecoder {
    /// Whether a search has enough solutions.
    pub open spec fn satisfied(self, s: SearchModel) -> bool {
        s.collected.len() >= self.wanted()
    }

    /// The search at its end: rounds or generations follow the first phase unless it found
    /// enough solutions. A search that is observed runs through generations.
    pub open spec fn searched(self, det: Seq<Bit>, draws: SearchDraws, observe: bool) -> SearchModel {
        let s = self.phase1(det, draws.population@, observe);
        let t = SearchModel { total: s.phase1, ..s };
        if self.satisfied(s) {
            s
        } else if self.config.biased_relay_mode && !observe {
            self.rounds_run(t, det, draws.generations@, 0)
        } else {
            self.generations_run(t, det, draws.generations@, 0, observe)
        }
    }

    /// The iterations after which a search ended: those after which the last of the
    /// solutions that count was found, or all.
    pub open spec fn spent(self, s: SearchModel) -> nat {
        if self.satisfied(s) {
            self.accepted(s.collected).last().discovery
        } else {
            s.total
        }
    }

    /// The result of a search: the solution that is taken of those that count, or the
    /// decoding with the best score where there are too few.
    pub open spec fn verdict(self, s: SearchModel) -> ResultModel {
        let (decoding, posterior) = if self.satisfied(s) {
            let x = self.taken(s.collected);
            (x.decoding, x.posterior)
        } else {
            (s.best_decoding, s.best_posterior)
        };
        ResultModel {
            decoding,
            decoded_detectors: self.check_matrix@.mul_mod2(decoding),
            posterior,
            success: self.satisfied(s),
            quality: decoding_quality(self.priors(), decoding),
            iterations: self.spent(s),
            max_iter: self.config.iteration_limit() as nat,
            gap: None,
        }
    }

    /// The solutions that count at the end of a search.
    pub open spec fn counted(self, s: SearchModel) -> Seq<SolutionModel> {
        if self.satisfied(s) {
            self.accepted(s.collected)
        } else {
            Seq::empty()
        }
    }

    /// What is recorded of a search.
    pub open spec fn record(
        self,
        s: SearchModel,
        det: Seq<Bit>,
        phase1_converged: bool,
        observe: bool,
    ) -> TraceModel {
        let counted = self.counted(s);
        TraceModel {
            phase1_converged,
            phase1: if phase1_converged {
                self.spent(s)
            } else {
                s.phase1
            },
            total: self.spent(s),
            generations: s.gammas.len(),
            scores: s.scores,
            selected: Some(self.verdict(s).posterior),
            decodings: Seq::new(counted.len(), |k: int| counted[k].decoding),
            weights: Seq::new(counted.len(), |k: int| counted[k].cost as i128),
            discoveries: Seq::new(counted.len(), |k: int| counted[k].discovery as usize),
            residuals: s.residuals,
            gammas: s.gammas,
            observed: if observe {
                Some(ObservedModel { weight: ones(det), entries: s.entries })
            } else {
                None
            },
            spike: if observe {
                spike_trace(
                    s.scores,
                    s.top_posteriors,
                    s.top_adjacent,
                    s.top_memories,
                    s.gammas.len(),
                )
            } else {
                None
            },
        }
    }

    /// The decodings of solutions, their weights and when they were found.
    pub fn accepted_solution_trace_vectors(&self, accepted: &Vec<CollectedSolution>) -> (r: (
        Vec<Vec<Bit>>,
        Vec<i128>,
        Vec<usize>,
    ))
        ensures
            ({
                let a = solutions_of(accepted@);
                &&& bit_rows_of(r.0@) == Seq::new(a.len(), |k: int| a[k].decoding)
                &&& r.1@ == Seq::new(a.len(), |k: int| a[k].cost as i128)
                &&& r.2@ == Seq::new(a.len(), |k: int| a[k].discovery as usize)
            }),
    {
        let ghost a = solutions_of(accepted@);
        let mut decodings: Vec<Vec<Bit>> = Vec::new();
        let mut weights: Vec<i128> = Vec::new();
        let mut discoveries: Vec<usize> = Vec::new();
        let mut k: usize = 0;
        while k < accepted.len()
            invariant
                a == solutions_of(accepted@),
                k <= accepted.len(),
                decodings.len() == k,
                weights.len() == k,
                discoveries.len() == k,
                forall|j: int| 0 <= j < k ==> (#[trigger] decodings[j])@ == a[j].decoding,
                forall|j: int| 0 <= j < k ==> (#[trigger] weights[j]) == a[j].cost as i128,
                forall|j: int|
                    0 <= j < k ==> (#[trigger] discoveries[j]) == a[j].discovery as usize,
            decreases accepted.len() - k,
        {
            assert(a[k as int] == accepted[k as int]@);
            decodings.push(accepted[k].decoding.clone());
            weights.push(accepted[k].llr_cost);
            discoveries.push(accepted[k].discovery_iteration);
            k += 1;
        }
        proof {
            assert(bit_rows_of(decodings@) =~= Seq::new(a.len(), |k: int| a[k].decoding));
            assert(weights@ =~= Seq::new(a.len(), |k: int| a[k].cost as i128));
            assert(discoveries@ =~= Seq::new(a.len(), |k: int| a[k].discovery as usize));
        }
        (decodings, weights, discoveries)
    }

    /// The result of a search and its record.
    fn conclude(
        &self,
        s: SlgSearch,
        detectors: &Vec<Bit>,
        phase1_converged: bool,
        observe: bool,
    ) -> (r: DecodeResult)
        requires
            self.wf(),
            self.sound(s@, detectors@),
        ensures
            r@ == self.verdict(s@),
            r.extra matches BPExtraResult::SLGMBPTrace(t) && t@ == self.record(
                s@,
                detectors@,
                phase1_converged,
                observe,
            ),
            r.success ==> self.check_matrix@.mul_mod2(r.decoding@) == detectors@,
            r.decoding.len() == self.cols(),
            r.posterior_ratios.len() == self.cols(),
            accepted_fit(r.extra, self.cols()),
    {
        let ghost model = s@;
        let ghost det = detectors@;
        let done: bool = self.should_stop_after_success_count(s.collected.len());
        let mut accepted: Vec<CollectedSolution> = Vec::new();
        let mut decoding: Vec<Bit> = s.best_decoding.clone();
        let mut posterior: Vec<i64> = s.best_posterior.clone();
        let mut spent: usize = s.total_iterations;
        if done {
            accepted = self.accepted_solutions(&s.collected);
            assert forall|k: int| 0 <= k < accepted.len() implies exists|i: int|
                0 <= i < model.collected.len() && (#[trigger] accepted[k])@
                    == #[trigger] model.collected[i] by {
                let i = choose|i: int|
                    0 <= i < s.collected.len() && accepted[k]@ == (#[trigger] s.collected[i])@;
                assert(model.collected[i] == s.collected[i]@);
            }
            assert(solutions_of(accepted@).last() == accepted@.last()@);
            spent = accepted[accepted.len() - 1].discovery_iteration;
            match self.choose_final_solution(&s.collected) {
                Some(x) => {
                    proof {
                        let i = choose|i: int|
                            0 <= i < s.collected.len() && x@ == (#[trigger] s.collected[i])@;
                        assert(self.solves(det, model.collected[i]));
                    }
                    decoding = x.decoding;
                    posterior = x.posterior;
                },
                None => {},
            }
        } else {
            assert(solutions_of(accepted@) =~= Seq::empty());
        }
        assert(solutions_of(accepted@) == self.counted(model));
        let decoded_detectors: Vec<Bit> = self.check_matrix.mul_mod2(&decoding);
        let quality: i128 = get_decoding_quality(
            &self.base_min_sum_config.log_prior_ratios,
            &decoding,
        );
        let (accepted_decodings, accepted_weights, accepted_iters) =
            self.accepted_solution_trace_vectors(&accepted);
        let ghost a = solutions_of(accepted@);
        assert(bit_rows_of(accepted_decodings@).len() == a.len());
        assert forall|k: int| 0 <= k < accepted_decodings.len() implies (
        #[trigger] accepted_decodings[k]).len() == self.cols() by {
            assert(bit_rows_of(accepted_decodings@)[k] == a[k].decoding);
            assert(a[k] == accepted[k]@);
            let i = choose|i: int|
                0 <= i < model.collected.len() && accepted[k]@ == #[trigger] model.collected[i];
            assert(self.solves(det, model.collected[i]));
        }
        let spike: Option<SLGMBPScoreSpikeTrace> = if observe {
            self.build_score_spike_trace(
                &s.generation_best_fitness,
                &s.generation_best_posteriors,
                &s.generation_best_adjacent_variable_indices,
                &s.generation_memory_strengths,
                &s.gamma_history,
            )
        } else {
            None
        };
        let SlgSearch {
            members: _,
            best_decoding: _,
            best_posterior: _,
            best_fitness: _,
            collected: _,
            phase1_iterations,
            total_iterations: _,
            threshold: _,
            generation_best_fitness,
            gamma_history,
            residual_weight_history,
            generation_best_posteriors: _,
            generation_best_adjacent_variable_indices: _,
            generation_memory_strengths: _,
            entries,
        } = s;
        let detailed_dynamics: Option<SLGMBPDetailedDynamicsTrace> = if observe {
            Some(
                SLGMBPDetailedDynamicsTrace {
                    observed_syndrome_weight: count_ones(detectors),
                    entries,
                },
            )
        } else {
            None
        };
        let trace = SLGMBPRuntimeTrace {
            phase1_converged,
            phase1_iterations: if phase1_converged {
                spent
            } else {
                phase1_iterations
            },
            total_iterations: spent,
            generation_count: gamma_history.len(),
            generation_best_fitness,
            selected_solution_posterior: Some(posterior.clone()),
            accepted_solution_decodings: accepted_decodings,
            accepted_solution_weights: accepted_weights,
            accepted_solution_discovery_iterations: accepted_iters,
            residual_weight_history,
            gamma_history,
            detailed_dynamics,
            score_spike_trace: spike,
        };
        assert(trace@ =~= self.record(model, det, phase1_converged, observe));
        let r = DecodeResult {
            decoding,
            decoded_detectors,
            posterior_ratios: posterior,
            success: done,
            decoding_quality: quality,
            iterations: spent,
            max_iter: self.max_iter(),
            logical_gap: None,
            extra: BPExtraResult::SLGMBPTrace(trace),
        };
        assert(r@ =~= self.verdict(model));
        r
    }

    /// A search from its first phase to its result.
    fn search(&self, detectors: &Vec<Bit>, draws: &SearchDraws, observe: bool) -> (r: DecodeResult)
        requires
            self.wf(),
            self.supplied(*draws),
            detectors.len() == self.check_matrix@.rows,
        ensures
            r@ == self.verdict(self.searched(detectors@, *draws, observe)),
            r.extra matches BPExtraResult::SLGMBPTrace(t) && t@ == self.record(
                self.searched(detectors@, *draws, observe),
                detectors@,
                self.satisfied(self.phase1(detectors@, draws.population@, observe)),
                observe,
            ),
            r.success ==> self.check_matrix@.mul_mod2(r.decoding@) == detectors@,
            r.decoding.len() == self.cols(),
            r.posterior_ratios.len() == self.cols(),
            accepted_fit(r.extra, self.cols()),
    {
        let mut s: SlgSearch = self.run_phase1(detectors, &draws.population, observe);
        let ghost first = s@;
        if self.should_stop_after_success_count(s.collected.len()) {
            return self.conclude(s, detectors, true, observe);
        }
        s.total_iterations = s.phase1_iterations;
        assert(s@ =~= SearchModel { total: first.phase1, ..first });
        let end: SlgSearch = if self.config.biased_relay_mode && !observe {
            self.run_biased_relay(s, detectors, &draws.generations)
        } else {
            self.run_generations(s, detectors, &draws.generations, observe)
        };
        self.conclude(end, detectors, false, observe)
    }

    /// Decodes a syndrome.
    pub fn decode_detailed(&self, detectors: &Vec<Bit>, draws: &SearchDraws) -> (r: DecodeResult)
        requires
            self.wf(),
            self.supplied(*draws),
            detectors.len() == self.check_matrix@.rows,
        ensures
            r@ == self.verdict(self.searched(detectors@, *draws, false)),
            r.extra matches BPExtraResult::SLGMBPTrace(t) && t@ == self.record(
                self.searched(detectors@, *draws, false),
                detectors@,
                self.satisfied(self.phase1(detectors@, draws.population@, false)),
                false,
            ),
            r.success ==> self.check_matrix@.mul_mod2(r.decoding@) == detectors@,
            r.decoding.len() == self.cols(),
            r.posterior_ratios.len() == self.cols(),
            accepted_fit(r.extra, self.cols()),
    {
        self.search(detectors, draws, false)
    }

    /// Decodes a syndrome through generations and records how every member was decoded.
    pub fn decode_detailed_dynamics(&self, detectors: &Vec<Bit>, draws: &SearchDraws) -> (r:
        DecodeResult)
        requires
            self.wf(),
            self.supplied(*draws),
            detectors.len() == self.check_matrix@.rows,
        ensures
            r@ == self.verdict(self.searched(detectors@, *draws, true)),
            r.extra matches BPExtraResult::SLGMBPTrace(t) && t@ == self.record(
                self.searched(detectors@, *draws, true),
                detectors@,
                self.satisfied(self.phase1(detectors@, draws.population@, true)),
                true,
            ),
            r.success ==> self.check_matrix@.mul_mod2(r.decoding@) == detectors@,
            r.decoding.len() == self.cols(),
            r.posterior_ratios.len() == self.cols(),
            accepted_fit(r.extra, self.cols()),
    {
        self.search(detectors, draws, true)
    }
}

/// The number of ones.
fn count_ones(bits: &Vec<Bit>) -> (r: usize)
    ensures
        r == ones(bits@),
{
    let mut count: usize = 0;
    let mut i: usize = 0;
    while i < bits.len()
        invariant
            i <= bits.len(),
            count <= i,
            count == ones_below(bits@, i as int),
        decreases bits.len() - i,
    {
        if bits[i] == 1 {
            count = count + 1;
        }
        i += 1;
    }
    count
}

/// A searching decoder together with what was drawn for it.
#[derive(Clone, Debug)]
pub struct DrawnSearchDecoder {
    pub decoder: SLGMBPDecoder,
    /// What was drawn for each decoding to come.
    pub supply: Vec<SearchDraws>,
}

/// What such a decoder holds.
#[verifier::ext_equal]
pub struct DrawnSearchModel {
    pub decoder: SLGMBPDecoder,
    pub supply: Seq<SearchDraws>,
}

impl DrawnSearchModel {
    /// The search for `det`.
    pub open spec fn search(self, det: Seq<Bit>) -> SearchModel {
        self.decoder.searched(det, self.supply[0], false)
    }
}

impl Decoder for DrawnSearchDecoder {
    type M = DrawnSearchModel;

    open spec fn model(&self) -> DrawnSearchModel {
        DrawnSearchModel { decoder: self.decoder, supply: self.supply@ }
    }

    open spec fn ready(m: DrawnSearchModel) -> bool {
        &&& m.decoder.wf()
        &&& forall|k: int|
            0 <= k < m.supply.len() ==> m.decoder.supplied(#[trigger] m.supply[k])
    }

    open spec fn code(m: DrawnSearchModel) -> MatrixModel {
        m.decoder.check_matrix@
    }

    open spec fn weights(m: DrawnSearchModel) -> Seq<i64> {
        m.decoder.priors()
    }

    open spec fn outcome(m: DrawnSearchModel, det: Seq<Bit>) -> ResultModel {
        m.decoder.verdict(m.search(det))
    }

    open spec fn noted(m: DrawnSearchModel, det: Seq<Bit>, extra: BPExtraResult) -> bool {
        extra matches BPExtraResult::SLGMBPTrace(t) && t@ == m.decoder.record(
            m.search(det),
            det,
            m.decoder.satisfied(m.decoder.phase1(det, m.supply[0].population@, false)),
            false,
        )
    }

    open spec fn next(m: DrawnSearchModel, det: Seq<Bit>) -> DrawnSearchModel {
        DrawnSearchModel { supply: m.supply.skip(1), ..m }
    }

    open spec fn lasts(m: DrawnSearchModel, n: nat) -> bool {
        m.supply.len() >= n
    }

    proof fn lemma_ready(m: DrawnSearchModel) {
    }

    proof fn lemma_lasts(m: DrawnSearchModel, det: Seq<Bit>, n: nat) {
    }

    fn can_decode(&self, n: usize) -> (r: bool) {
        self.supply.len() >= n
    }

    fn check_matrix(&self) -> (r: &SparseBitMatrix) {
        &self.decoder.check_matrix
    }

    fn log_prior_ratios(&self) -> (r: Vec<i64>) {
        self.decoder.prior_llr()
    }

    fn decode_detailed(&mut self, detectors: &Vec<Bit>) -> (r: DecodeResult) {
        let ghost m = self.model();
        assert(m.decoder.supplied(m.supply[0]));
        let own: SearchDraws = self.supply.remove(0);
        let r = self.decoder.decode_detailed(detectors, &own);
        assert(self.model() =~= Self::next(m, detectors@));
        assert(Self::noted(m, detectors@, r.extra));
        r
    }
}

} // verus!
