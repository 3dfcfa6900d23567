//! Belief propagation whose memory strengths follow the posteriors.

use vstd::prelude::*;

use crate::arith::{
    abs, blend, blend_ratios, bound, magnitude, narrow, GAIN_LIMIT,
};
use crate::decoder::{consistent, BPExtraResult, DecodeResult, Decoder, ResultModel};
use crate::disordered_bp::{mean, mean_of};
use crate::dual_relay::{at_least_one, positive};
use crate::matrix::{Bit, MatrixModel, SparseBitMatrix};
use crate::min_sum::{
    bound_all, bound_values, coins_at, hard_decision, is_gain, BpModel, MinSumBPDecoder,
    MinSumDecoderConfig,
};
use crate::relay::are_gains;
use crate::table::{look_up, looked_up};

verus! {

/// When memory strengths are renewed.
#[derive(Clone, Copy, Debug, PartialEq, Eq, Structural)]
pub enum AdaptiveRelayUpdateMode {
    /// After every iteration.
    PerIteration,
    /// After every leg.
    PerLeg,
}

impl Default for AdaptiveRelayUpdateMode {
    fn default() -> (r: Self)
        ensures
            r is PerIteration,
    {
        AdaptiveRelayUpdateMode::PerIteration
    }
}

/// The distribution of what is added to memory strengths.
#[derive(Clone, Copy, Debug, PartialEq, Eq, Structural)]
pub enum AdaptiveRelayPerturbationMode {
    Uniform,
    Gaussian,
}

impl Default for AdaptiveRelayPerturbationMode {
    fn default() -> (r: Self)
        ensures
            r is Uniform,
    {
        AdaptiveRelayPerturbationMode::Uniform
    }
}

/// Whether posteriors are clamped.
#[derive(Clone, Copy, Debug, PartialEq, Eq, Structural)]
pub enum PosteriorMarginalClampMode {
    /// They are not.
    NoClamp,
    /// Their magnitude is limited.
    AbsThresholdClamp,
}

impl Default for PosteriorMarginalClampMode {
    fn default() -> (r: Self)
        ensures
            r is NoClamp,
    {
        PosteriorMarginalClampMode::NoClamp
    }
}

/// The parameters of an adaptive decoder.
#[derive(Clone, Debug)]
pub struct AdaptiveRelayDecoderConfig {
    /// The memory strength at the start.
    pub initial_gamma: i64,
    /// The memory strength that a variable tends to, by the magnitude of its posterior, in
    /// steps of `target_step`. The last value stays.
    pub target_gammas: Vec<i64>,
    pub target_step: i64,
    /// The share of the last tendency that is kept; between zero and one unit.
    pub beta: i64,
    /// Whether iterations with the memory strength of the start come first.
    pub pre_decoding: bool,
    /// Their largest number.
    pub pre_iteration: usize,
    /// The most iterations of a member; at least one is done.
    pub maximum_iteration: usize,
    /// The iterations of a leg; at least one is done.
    pub iter_per_leg: usize,
    pub update_mode: AdaptiveRelayUpdateMode,
    /// The most members that try, one after the other; at least one does.
    pub ensemble_size: usize,
    /// Whether a leg starts with the posteriors of the one before.
    pub carry_marginal_between_legs: bool,
    pub posterior_marginal_clamp_mode: PosteriorMarginalClampMode,
    /// The largest magnitude of a clamped posterior; no clamping if it is not positive.
    pub posterior_marginal_abs_threshold: i64,
}

/// What was drawn for one member.
#[derive(Clone, Debug)]
pub struct AdaptiveRelayDraws {
    /// What is added to the memory strength of each variable in each update; nothing past
    /// the end.
    pub perturbations: Vec<Vec<i64>>,
    /// The draws of each iteration that count where messages may be dropped.
    pub coins: Vec<Vec<bool>>,
}

/// What an adaptive decoder records.
#[derive(Clone, Debug)]
pub struct AdaptiveRelayTrace {
    /// The number of members that tried.
    pub executed_members: usize,
    /// The member that converged.
    pub winner_member_index: Option<usize>,
    pub member_success: Vec<bool>,
    pub member_discovery_iterations: Vec<Option<usize>>,
    pub member_total_iterations: Vec<usize>,
    /// The iterations of each leg of the member that is reported.
    pub leg_iterations: Vec<usize>,
    /// Its mean memory strength after each update.
    pub gamma_history: Vec<i64>,
    /// How many of its posteriors were clamped.
    pub clamp_applied_count: usize,
}

/// The state of a member.
#[verifier::ext_equal]
pub struct MemberModel {
    pub bp: BpModel,
    /// What the memory strengths tend to.
    pub mu: Seq<i64>,
    pub gamma: Seq<i64>,
    pub total: nat,
    pub updates: nat,
    pub success: bool,
    pub legs: Seq<usize>,
    pub history: Seq<i64>,
    pub clamps: nat,
}

/// The members that tried and the decoder after the last.
#[verifier::ext_equal]
pub struct AdaptiveRun {
    pub members: Seq<MemberModel>,
    pub last: BpModel,
}

/// What is added to the memory strength of variable `v` in update `u`.
pub open spec fn perturbation_at(perturbations: Seq<Vec<i64>>, u: int, v: int) -> int {
    if u < perturbations.len() && v < perturbations[u].len() {
        perturbations[u][v] as int
    } else {
        0
    }
}

/// The number of the first `n` values whose magnitude is over `limit`.
pub open spec fn over_below(values: Seq<i64>, limit: int, n: nat) -> nat
    decreases n,
{
    if n == 0 {
        0
    } else {
        over_below(values, limit, (n - 1) as nat) + if bound(values[n - 1] as int, limit)
            != values[n - 1] {
            1nat
        } else {
            0
        }
    }
}

impl AdaptiveRelayDecoderConfig {
    /// The parameters fit a code with `cols` variables, where the unit is `one`.
    pub open spec fn wf(self, cols: nat, one: int) -> bool {
        &&& is_gain(self.initial_gamma)
        &&& self.target_step > 0
        &&& forall|k: int|
            0 <= k < self.target_gammas.len() ==> is_gain(#[trigger] self.target_gammas[k])
        &&& 0 <= self.beta <= one
        &&& positive(self.maximum_iteration) * cols <= usize::MAX
        &&& positive(self.ensemble_size) < usize::MAX
    }

    /// Whether posteriors are clamped.
    pub open spec fn clamps(self) -> bool {
        self.posterior_marginal_clamp_mode is AbsThresholdClamp
            && self.posterior_marginal_abs_threshold > 0
    }

    /// The posteriors of `d` clamped.
    pub open spec fn clamped(self, d: BpModel) -> BpModel {
        if self.clamps() {
            BpModel {
                posterior: bound_all(d.posterior, self.posterior_marginal_abs_threshold as int),
                ..d
            }.decided()
        } else {
            d
        }
    }

    /// How many posteriors of `d` are clamped.
    pub open spec fn clamped_count(self, d: BpModel) -> nat {
        if self.clamps() {
            over_below(
                d.posterior,
                self.posterior_marginal_abs_threshold as int,
                d.posterior.len(),
            )
        } else {
            0
        }
    }

    /// One iteration of a member. It counts for the decoder only where it does not explain
    /// the detectors.
    pub open spec fn step(self, draws: AdaptiveRelayDraws, det: Seq<Bit>, m: MemberModel) -> MemberModel {
        let b = m.bp.iterate(det, coins_at(draws.coins@, m.total as int));
        let c = self.clamped(b);
        let success = c.converged(det);
        MemberModel {
            bp: if success {
                c
            } else {
                c.counted()
            },
            total: m.total + 1,
            success,
            clamps: m.clamps + self.clamped_count(b),
            ..m
        }
    }

    /// Iterating until the detectors are explained, `n` times at most.
    pub open spec fn steps(
        self,
        draws: AdaptiveRelayDraws,
        det: Seq<Bit>,
        m: MemberModel,
        n: nat,
    ) -> MemberModel
        decreases n,
    {
        if n == 0 {
            m
        } else {
            let next = self.step(draws, det, m);
            if next.success {
                next
            } else {
                self.steps(draws, det, next, (n - 1) as nat)
            }
        }
    }

    /// The tendency of variable `v` renewed from its posterior.
    pub open spec fn tendency(self, m: MemberModel, v: int) -> int {
        let target = looked_up(
            self.target_gammas@,
            self.target_step as int,
            abs(m.bp.posterior[v] as int),
        );
        blend(target, m.mu[v] as int, self.beta as int, m.bp.config.one())
    }

    /// The memory strengths renewed: what they tend to, and what was drawn on top.
    pub open spec fn retuned(self, draws: AdaptiveRelayDraws, m: MemberModel) -> MemberModel {
        let mu = Seq::new(
            m.mu.len(),
            |v: int| bound(self.tendency(m, v), GAIN_LIMIT as int) as i64,
        );
        MemberModel {
            mu,
            gamma: Seq::new(
                m.mu.len(),
                |v: int|
                    bound(
                        mu[v] + perturbation_at(draws.perturbations@, m.updates as int, v),
                        GAIN_LIMIT as int,
                    ) as i64,
            ),
            updates: m.updates + 1,
            ..m
        }
    }

    /// The decoder takes on the memory strengths.
    pub open spec fn applied(self, m: MemberModel) -> MemberModel {
        MemberModel {
            bp: BpModel { memory: m.gamma, ..m.bp },
            history: m.history.push(mean(m.gamma) as i64),
            ..m
        }
    }

    /// Iterating `n` times at most, with new memory strengths after every iteration.
    pub open spec fn each_iteration(
        self,
        draws: AdaptiveRelayDraws,
        det: Seq<Bit>,
        m: MemberModel,
        n: nat,
    ) -> MemberModel
        decreases n,
    {
        if n == 0 {
            m
        } else {
            let next = self.step(draws, det, m);
            let counted = MemberModel { legs: next.legs.push(1), ..next };
            if counted.success {
                counted
            } else {
                self.each_iteration(
                    draws,
                    det,
                    self.applied(self.retuned(draws, counted)),
                    (n - 1) as nat,
                )
            }
        }
    }

    /// A leg starts: the messages at their start, the posteriors handed on or at the priors.
    pub open spec fn leg_start(self, m: MemberModel) -> MemberModel {
        let d = BpModel {
            iteration: 0,
            posterior: if self.carry_marginal_between_legs {
                m.bp.posterior
            } else {
                m.bp.priors
            },
            ..m.bp
        };
        self.applied(MemberModel { bp: d.checks_silent().variables_at_prior(), ..m })
    }

    /// The iterations of a leg of which at most `n` are left.
    pub open spec fn leg_length(self, n: nat) -> nat {
        if positive(self.iter_per_leg) < n {
            positive(self.iter_per_leg)
        } else {
            n
        }
    }

    /// Running legs with `n` iterations at most, with new memory strengths after every leg.
    pub open spec fn each_leg(
        self,
        draws: AdaptiveRelayDraws,
        det: Seq<Bit>,
        m: MemberModel,
        n: nat,
    ) -> MemberModel
        decreases n,
    {
        if n == 0 {
            m
        } else {
            let begun = self.leg_start(m);
            let ended = self.steps(draws, det, begun, self.leg_length(n));
            let counted = MemberModel {
                legs: ended.legs.push((ended.total - begun.total) as usize),
                ..ended
            };
            if counted.success {
                counted
            } else {
                self.each_leg(
                    draws,
                    det,
                    self.retuned(draws, counted),
                    (n - self.leg_length(n)) as nat,
                )
            }
        }
    }

    /// The iterations that come first.
    pub open spec fn first_length(self) -> nat {
        let limit = positive(self.maximum_iteration);
        if !self.pre_decoding {
            0
        } else if self.pre_iteration < limit {
            self.pre_iteration as nat
        } else {
            limit
        }
    }

    /// A member starts.
    pub open spec fn member_start(self, d: BpModel) -> MemberModel {
        let gamma = Seq::new(d.cols(), |v: int| self.initial_gamma);
        self.applied(
            MemberModel {
                bp: d.initialized(),
                mu: gamma,
                gamma,
                total: 0,
                updates: 0,
                success: false,
                legs: Seq::empty(),
                history: Seq::empty(),
                clamps: 0,
            },
        )
    }

    /// A member after its first iterations.
    pub open spec fn member_first(
        self,
        draws: AdaptiveRelayDraws,
        det: Seq<Bit>,
        d: BpModel,
    ) -> MemberModel {
        let first = self.steps(draws, det, self.member_start(d), self.first_length());
        if first.total > 0 {
            MemberModel { legs: first.legs.push(first.total as usize), ..first }
        } else {
            first
        }
    }

    /// What a member comes to.
    pub open spec fn member(
        self,
        draws: AdaptiveRelayDraws,
        det: Seq<Bit>,
        d: BpModel,
    ) -> MemberModel {
        let first = self.member_first(draws, det, d);
        let left = (positive(self.maximum_iteration) - first.total) as nat;
        if first.success {
            first
        } else {
            match self.update_mode {
                AdaptiveRelayUpdateMode::PerIteration => self.each_iteration(
                    draws,
                    det,
                    first,
                    left,
                ),
                AdaptiveRelayUpdateMode::PerLeg => self.each_leg(draws, det, first, left),
            }
        }
    }

    /// The result of a member.
    pub open spec fn member_result(self, m: MemberModel) -> ResultModel {
        ResultModel {
            iterations: m.total,
            ..m.bp.result(
                m.success,
                m.bp.decoded_detectors(),
                positive(self.maximum_iteration),
            )
        }
    }

    /// The members from `k` on, until one converges.
    pub open spec fn members_from(
        self,
        draws: Seq<AdaptiveRelayDraws>,
        det: Seq<Bit>,
        t: AdaptiveRun,
        k: nat,
    ) -> AdaptiveRun
        decreases positive(self.ensemble_size) - k,
    {
        if k >= positive(self.ensemble_size) {
            t
        } else {
            let m = self.member(draws[k as int], det, t.last);
            let next = AdaptiveRun { members: t.members.push(m), last: m.bp };
            if m.success {
                next
            } else {
                self.members_from(draws, det, next, k + 1)
            }
        }
    }

    /// All members of a decoder in the state `d`.
    pub open spec fn run(self, draws: Seq<AdaptiveRelayDraws>, det: Seq<Bit>, d: BpModel) -> AdaptiveRun {
        self.members_from(draws, det, AdaptiveRun { members: Seq::empty(), last: d }, 0)
    }
}

impl AdaptiveRun {
    /// The member that is reported: the one that converged, else the first.
    pub open spec fn chosen(self) -> MemberModel {
        if self.members.last().success {
            self.members.last()
        } else {
            self.members[0]
        }
    }

    /// What is recorded of the run.
    pub open spec fn told(self, e: AdaptiveRelayTrace) -> bool {
        let n = self.members.len();
        &&& e.executed_members == n
        &&& e.winner_member_index == (if self.members.last().success {
            Some((n - 1) as usize)
        } else {
            None
        })
        &&& e.member_success@ == Seq::new(n, |k: int| self.members[k].success)
        &&& e.member_discovery_iterations@ == Seq::new(
            n,
            |k: int|
                if self.members[k].success {
                    Some(self.members[k].total as usize)
                } else {
                    None
                },
        )
        &&& e.member_total_iterations@ == Seq::new(n, |k: int| self.members[k].total as usize)
        &&& e.leg_iterations@ == self.chosen().legs
        &&& e.gamma_history@ == self.chosen().history
        &&& e.clamp_applied_count == self.chosen().clamps
    }
}

/// What is kept of a member besides the decoder.
struct MemberRun {
    mu: Vec<i64>,
    gamma: Vec<i64>,
    total: usize,
    updates: usize,
    success: bool,
    leg_iterations: Vec<usize>,
    gamma_history: Vec<i64>,
    clamp_applied_count: usize,
}

impl MemberRun {
    /// The state of the member, whose decoder is in the state `bp`.
    spec fn model(self, bp: BpModel) -> MemberModel {
        MemberModel {
            bp,
            mu: self.mu@,
            gamma: self.gamma@,
            total: self.total as nat,
            updates: self.updates as nat,
            success: self.success,
            legs: self.leg_iterations@,
            history: self.gamma_history@,
            clamps: self.clamp_applied_count as nat,
        }
    }

    /// The parts fit a code with `cols` variables.
    spec fn wf(self, cols: nat) -> bool {
        &&& are_gains(self.mu@, cols)
        &&& are_gains(self.gamma@, cols)
        &&& self.updates <= self.total
        &&& self.clamp_applied_count <= self.total * cols
    }
}

/// A decoder whose memory strengths follow the posteriors.
#[derive(Clone, Debug)]
pub struct AdaptiveRelayDecoder {
    pub bp_decoder: MinSumBPDecoder,
    pub config: AdaptiveRelayDecoderConfig,
}

proof fn lemma_over_below(values: Seq<i64>, limit: int, n: nat)
    requires
        n <= values.len(),
        0 <= limit <= i64::MAX,
    ensures
        over_below(values, limit, n) <= n,
        over_below(values, limit, n) == 0 ==> forall|v: int|
            0 <= v < n ==> (#[trigger] bound_all(values, limit)[v]) == values[v],
    decreases n,
{
    if n > 0 {
        lemma_over_below(values, limit, (n - 1) as nat);
    }
}

impl AdaptiveRelayDecoder {
    /// The parts fit each other.
    pub open spec fn wf(self) -> bool {
        &&& self.bp_decoder@.wf()
        &&& self.config.wf(self.bp_decoder@.cols(), self.bp_decoder@.config.one())
    }

    /// The decoders agree in code and parameters.
    pub open spec fn same_code(self, other: Self) -> bool {
        &&& self.config == other.config
        &&& self.bp_decoder@.matrix == other.bp_decoder@.matrix
        &&& self.bp_decoder@.config == other.bp_decoder@.config
    }

    /// An adaptive decoder for the code with check matrix `check_matrix`.
    pub fn new(
        check_matrix: SparseBitMatrix,
        min_sum_config: MinSumDecoderConfig,
        config: AdaptiveRelayDecoderConfig,
    ) -> (r: Self)
        requires
            check_matrix@.wf(),
            min_sum_config@.wf(check_matrix@.cols),
            config.wf(check_matrix@.cols, min_sum_config@.one()),
        ensures
            r.wf(),
            r.bp_decoder@ == BpModel::built(check_matrix@, min_sum_config@),
            r.config == config,
    {
        AdaptiveRelayDecoder { bp_decoder: MinSumBPDecoder::new(check_matrix, min_sum_config), config }
    }

    /// Clamps the posteriors, whose hard decision is the decoding: how many it changed.
    pub fn maybe_clamp_posterior(&mut self) -> (r: usize)
        requires
            old(self).wf(),
            old(self).bp_decoder@.decoding == hard_decision(old(self).bp_decoder@.posterior),
        ensures
            final(self).wf(),
            final(self).same_code(*old(self)),
            final(self).bp_decoder@ == old(self).config.clamped(old(self).bp_decoder@),
            final(self).bp_decoder@.iteration == old(self).bp_decoder@.iteration,
            r == old(self).config.clamped_count(old(self).bp_decoder@),
            r <= old(self).bp_decoder@.cols(),
    {
        let ghost d = self.bp_decoder@;
        match self.config.posterior_marginal_clamp_mode {
            PosteriorMarginalClampMode::NoClamp => {
                return 0;
            },
            PosteriorMarginalClampMode::AbsThresholdClamp => {},
        }
        let threshold: i64 = self.config.posterior_marginal_abs_threshold;
        if threshold <= 0 {
            return 0;
        }
        let clamped: Vec<i64> = bound_values(&self.bp_decoder.posterior_ratios, threshold);
        let mut changes: usize = 0;
        let mut v: usize = 0;
        while v < clamped.len()
            invariant
                self.bp_decoder@ == d,
                threshold > 0,
                clamped@ == bound_all(d.posterior, threshold as int),
                v <= clamped.len(),
                changes <= v,
                changes == over_below(d.posterior, threshold as int, v as nat),
            decreases clamped.len() - v,
        {
            if clamped[v] != self.bp_decoder.posterior_ratios[v] {
                changes = changes + 1;
            }
            v += 1;
        }
        proof {
            lemma_over_below(d.posterior, threshold as int, d.posterior.len());
        }
        if changes > 0 {
            self.bp_decoder.set_posterior_ratios(clamped);
            self.bp_decoder.recompute_hard_decision();
        } else {
            assert(bound_all(d.posterior, threshold as int) =~= d.posterior);
            assert(self.config.clamped(d) =~= d);
        }
        changes
    }

    /// One iteration of a member.
    fn run_single_iteration(
        &mut self,
        detectors: &Vec<Bit>,
        draws: &AdaptiveRelayDraws,
        m: &mut MemberRun,
    )
        requires
            old(self).wf(),
            detectors.len() == old(self).bp_decoder@.matrix.rows,
            old(m).wf(old(self).bp_decoder@.cols()),
            old(m).total < positive(old(self).config.maximum_iteration),
            old(self).bp_decoder@.iteration <= old(m).total,
        ensures
            final(self).wf(),
            final(self).same_code(*old(self)),
            final(m).wf(old(self).bp_decoder@.cols()),
            final(m).model(final(self).bp_decoder@) == old(self).config.step(
                *draws,
                detectors@,
                old(m).model(old(self).bp_decoder@),
            ),
            final(m).total == old(m).total + 1,
            final(m).updates == old(m).updates,
            final(self).bp_decoder@.iteration <= final(m).total,
            final(m).success == final(self).bp_decoder@.converged(detectors@),
    {
        let ghost before = m.model(self.bp_decoder@);
        let ghost b = self.bp_decoder@.iterate(
            detectors@,
            coins_at(draws.coins@, m.total as int),
        );
        let ghost cols = self.bp_decoder@.cols();
        if m.total < draws.coins.len() {
            self.bp_decoder.run_iteration(detectors, &draws.coins[m.total]);
        } else {
            let none: Vec<bool> = Vec::new();
            assert(none@ =~= Seq::empty());
            self.bp_decoder.run_iteration(detectors, &none);
        }
        let clamp_count: usize = self.maybe_clamp_posterior();
        let decoded: Vec<Bit> = self.bp_decoder.compute_decoded_detectors();
        let success: bool = self.bp_decoder.check_convergence(detectors, &decoded);
        if !success {
            self.bp_decoder.current_iteration = self.bp_decoder.current_iteration + 1;
        }
        proof {
            assert((m.total + 1) * cols == m.total * cols + cols) by (nonlinear_arith);
            assert((m.total + 1) * cols <= positive(self.config.maximum_iteration) * cols)
                by (nonlinear_arith)
                requires
                    m.total + 1 <= positive(self.config.maximum_iteration),
                    cols >= 0,
            ;
        }
        m.total = m.total + 1;
        m.success = success;
        m.clamp_applied_count = m.clamp_applied_count + clamp_count;
        proof {
            let next = self.config.step(*draws, detectors@, before);
            assert(m.model(self.bp_decoder@) =~= next);
        }
    }

    /// Iterates until the detectors are explained, `n` times at most.
    fn run_steps(
        &mut self,
        detectors: &Vec<Bit>,
        draws: &AdaptiveRelayDraws,
        m: &mut MemberRun,
        n: usize,
    )
        requires
            old(self).wf(),
            detectors.len() == old(self).bp_decoder@.matrix.rows,
            old(m).wf(old(self).bp_decoder@.cols()),
            old(m).total + n <= positive(old(self).config.maximum_iteration),
            old(self).bp_decoder@.iteration <= old(m).total,
            !old(m).success,
        ensures
            final(self).wf(),
            final(self).same_code(*old(self)),
            final(m).wf(old(self).bp_decoder@.cols()),
            final(m).model(final(self).bp_decoder@) == old(self).config.steps(
                *draws,
                detectors@,
                old(m).model(old(self).bp_decoder@),
                n as nat,
            ),
            old(m).total <= final(m).total <= old(m).total + n,
            !final(m).success ==> final(m).total == old(m).total + n,
            final(m).updates == old(m).updates,
            final(self).bp_decoder@.iteration <= final(m).total,
            final(m).success ==> final(self).bp_decoder@.converged(detectors@),
    {
        let ghost config = self.config;
        let ghost start = m.model(self.bp_decoder@);
        let ghost cols = self.bp_decoder@.cols();
        let ghost all = config.steps(*draws, detectors@, start, n as nat);
        let ghost first = m.total;
        let mut i: usize = 0;
        while i < n && !m.success
            invariant
                self.wf(),
                self.same_code(*old(self)),
                config == self.config,
                cols == self.bp_decoder@.cols(),
                detectors.len() == self.bp_decoder@.matrix.rows,
                m.wf(cols),
                first + n <= positive(config.maximum_iteration),
                i <= n,
                m.total == first + i,
                m.updates == old(m).updates,
                self.bp_decoder@.iteration <= m.total,
                m.success ==> self.bp_decoder@.converged(detectors@),
                all == (if m.success {
                    m.model(self.bp_decoder@)
                } else {
                    config.steps(
                        *draws,
                        detectors@,
                        m.model(self.bp_decoder@),
                        (n - i) as nat,
                    )
                }),
            decreases n - i + (if m.success {
                0int
            } else {
                1
            }),
        {
            self.run_single_iteration(detectors, draws, m);
            i += 1;
        }
    }

    /// Renews the memory strengths from the posteriors.
    fn update_gamma_from_posterior(&self, draws: &AdaptiveRelayDraws, m: &mut MemberRun)
        requires
            self.wf(),
            old(m).wf(self.bp_decoder@.cols()),
            old(m).updates < old(m).total,
        ensures
            final(m).wf(self.bp_decoder@.cols()),
            final(m).model(self.bp_decoder@) == self.config.retuned(
                *draws,
                old(m).model(self.bp_decoder@),
            ),
            final(m).total == old(m).total,
            final(m).updates == old(m).updates + 1,
            final(m).success == old(m).success,
    {
        let ghost before = m.model(self.bp_decoder@);
        let ghost after = self.config.retuned(*draws, before);
        let cols: usize = self.bp_decoder.check_matrix.cols;
        let one: i64 = self.bp_decoder.config.unit();
        let u: usize = m.updates;
        let mut mu: Vec<i64> = Vec::new();
        let mut gamma: Vec<i64> = Vec::new();
        while mu.len() < cols
            invariant
                self.wf(),
                cols == self.bp_decoder@.cols(),
                one == self.bp_decoder@.config.one(),
                1 <= one <= GAIN_LIMIT,
                u == before.updates,
                before.bp == self.bp_decoder@,
                before.mu == m.mu@,
                m.wf(cols as nat),
                after == self.config.retuned(*draws, before),
                mu.len() <= cols,
                gamma.len() == mu.len(),
                forall|v: int| 0 <= v < mu.len() ==> mu[v] == after.mu[v] && is_gain(#[trigger] mu[v]),
                forall|v: int|
                    0 <= v < mu.len() ==> gamma[v] == after.gamma[v] && is_gain(
                        #[trigger] gamma[v],
                    ),
            decreases cols - mu.len(),
        {
            let v: usize = mu.len();
            assert(is_gain(m.mu@[v as int]));
            let target: i64 = look_up(
                &self.config.target_gammas,
                self.config.target_step,
                magnitude(self.bp_decoder.posterior_ratios[v]),
            );
            let value: i64 = narrow(
                blend_ratios(target, m.mu[v], self.config.beta, one),
                GAIN_LIMIT,
            );
            let extra: i64 = if u < draws.perturbations.len() && v < draws.perturbations[u].len() {
                draws.perturbations[u][v]
            } else {
                0
            };
            mu.push(value);
            gamma.push(narrow((value as i128) + (extra as i128), GAIN_LIMIT));
        }
        m.mu = mu;
        m.gamma = gamma;
        m.updates = u + 1;
        assert(m.model(self.bp_decoder@) =~= after);
    }

    /// The decoder takes on the memory strengths of a member.
    fn apply_gamma(&mut self, m: &mut MemberRun)
        requires
            old(self).wf(),
            old(m).wf(old(self).bp_decoder@.cols()),
        ensures
            final(self).wf(),
            final(self).same_code(*old(self)),
            final(m).wf(old(self).bp_decoder@.cols()),
            final(m).model(final(self).bp_decoder@) == old(self).config.applied(
                old(m).model(old(self).bp_decoder@),
            ),
            final(m).total == old(m).total,
            final(m).updates == old(m).updates,
            final(m).success == old(m).success,
            final(self).bp_decoder@.iteration == old(self).bp_decoder@.iteration,
            final(self).bp_decoder@.decoding == old(self).bp_decoder@.decoding,
    {
        let ghost before = m.model(self.bp_decoder@);
        let average: i64 = mean_of(&m.gamma);
        self.bp_decoder.set_memory_strengths_fixed(m.gamma.clone());
        m.gamma_history.push(average);
        assert(m.model(self.bp_decoder@) =~= self.config.applied(before));
    }

    /// Iterates until the detectors are explained or no iteration is left, with new memory
    /// strengths after every iteration.
    fn run_each_iteration(
        &mut self,
        detectors: &Vec<Bit>,
        draws: &AdaptiveRelayDraws,
        m: &mut MemberRun,
    )
        requires
            old(self).wf(),
            detectors.len() == old(self).bp_decoder@.matrix.rows,
            old(m).wf(old(self).bp_decoder@.cols()),
            old(m).total <= positive(old(self).config.maximum_iteration),
            old(self).bp_decoder@.iteration <= old(m).total,
            !old(m).success,
        ensures
            final(self).wf(),
            final(self).same_code(*old(self)),
            final(m).wf(old(self).bp_decoder@.cols()),
            final(m).model(final(self).bp_decoder@) == old(self).config.each_iteration(
                *draws,
                detectors@,
                old(m).model(old(self).bp_decoder@),
                (positive(old(self).config.maximum_iteration) - old(m).total) as nat,
            ),
            final(m).total <= positive(old(self).config.maximum_iteration),
            final(m).success ==> final(self).bp_decoder@.converged(detectors@),
    {
        let ghost config = self.config;
        let ghost cols = self.bp_decoder@.cols();
        let max_total: usize = at_least_one(self.config.maximum_iteration);
        let ghost all = config.each_iteration(
            *draws,
            detectors@,
            m.model(self.bp_decoder@),
            (max_total - m.total) as nat,
        );
        while m.total < max_total && !m.success
            invariant
                self.wf(),
                self.same_code(*old(self)),
                config == self.config,
                max_total == positive(config.maximum_iteration),
                cols == self.bp_decoder@.cols(),
                detectors.len() == self.bp_decoder@.matrix.rows,
                m.wf(cols),
                m.total <= max_total,
                self.bp_decoder@.iteration <= m.total,
                m.success ==> self.bp_decoder@.converged(detectors@),
                all == (if m.success {
                    m.model(self.bp_decoder@)
                } else {
                    config.each_iteration(
                        *draws,
                        detectors@,
                        m.model(self.bp_decoder@),
                        (max_total - m.total) as nat,
                    )
                }),
            decreases max_total - m.total + (if m.success {
                0int
            } else {
                1
            }),
        {
            let ghost here = m.model(self.bp_decoder@);
            self.run_single_iteration(detectors, draws, m);
            let ghost next = m.model(self.bp_decoder@);
            m.leg_iterations.push(1);
            assert(m.model(self.bp_decoder@) =~= (MemberModel { legs: next.legs.push(1), ..next }));
            if !m.success {
                self.update_gamma_from_posterior(draws, m);
                self.apply_gamma(m);
            }
        }
    }

    /// Starts a leg.
    fn prepare_new_leg(&mut self, m: &mut MemberRun)
        requires
            old(self).wf(),
            old(m).wf(old(self).bp_decoder@.cols()),
        ensures
            final(self).wf(),
            final(self).same_code(*old(self)),
            final(m).wf(old(self).bp_decoder@.cols()),
            final(m).model(final(self).bp_decoder@) == old(self).config.leg_start(
                old(m).model(old(self).bp_decoder@),
            ),
            final(m).total == old(m).total,
            final(m).updates == old(m).updates,
            final(m).success == old(m).success,
            final(self).bp_decoder@.iteration == 0,
    {
        let ghost d = self.bp_decoder@;
        self.bp_decoder.current_iteration = 0;
        if !self.config.carry_marginal_between_legs {
            self.bp_decoder.set_posterior_ratios_to_priors();
        }
        self.bp_decoder.initialize_check_to_variable();
        self.bp_decoder.initialize_variable_to_check();
        proof {
            let e = BpModel {
                iteration: 0,
                posterior: if self.config.carry_marginal_between_legs {
                    d.posterior
                } else {
                    d.priors
                },
                ..d
            };
            assert(self.bp_decoder@ =~= e.checks_silent().variables_at_prior());
        }
        self.apply_gamma(m);
    }

    /// Runs legs until the detectors are explained or no iteration is left, with new memory
    /// strengths after every leg.
    fn run_each_leg(
        &mut self,
        detectors: &Vec<Bit>,
        draws: &AdaptiveRelayDraws,
        m: &mut MemberRun,
    )
        requires
            old(self).wf(),
            detectors.len() == old(self).bp_decoder@.matrix.rows,
            old(m).wf(old(self).bp_decoder@.cols()),
            old(m).total <= positive(old(self).config.maximum_iteration),
            !old(m).success,
        ensures
            final(self).wf(),
            final(self).same_code(*old(self)),
            final(m).wf(old(self).bp_decoder@.cols()),
            final(m).model(final(self).bp_decoder@) == old(self).config.each_leg(
                *draws,
                detectors@,
                old(m).model(old(self).bp_decoder@),
                (positive(old(self).config.maximum_iteration) - old(m).total) as nat,
            ),
            final(m).total <= positive(old(self).config.maximum_iteration),
            final(m).success ==> final(self).bp_decoder@.converged(detectors@),
    {
        let ghost config = self.config;
        let ghost cols = self.bp_decoder@.cols();
        let max_total: usize = at_least_one(self.config.maximum_iteration);
        let per_leg: usize = at_least_one(self.config.iter_per_leg);
        let ghost all = config.each_leg(
            *draws,
            detectors@,
            m.model(self.bp_decoder@),
            (max_total - m.total) as nat,
        );
        while m.total < max_total && !m.success
            invariant
                self.wf(),
                self.same_code(*old(self)),
                config == self.config,
                max_total == positive(config.maximum_iteration),
                per_leg == positive(config.iter_per_leg),
                cols == self.bp_decoder@.cols(),
                detectors.len() == self.bp_decoder@.matrix.rows,
                m.wf(cols),
                m.total <= max_total,
                m.success ==> self.bp_decoder@.converged(detectors@),
                all == (if m.success {
                    m.model(self.bp_decoder@)
                } else {
                    config.each_leg(
                        *draws,
                        detectors@,
                        m.model(self.bp_decoder@),
                        (max_total - m.total) as nat,
                    )
                }),
            decreases max_total - m.total + (if m.success {
                0int
            } else {
                1
            }),
        {
            let ghost here = m.model(self.bp_decoder@);
            let remaining: usize = max_total - m.total;
            let leg_steps: usize = if per_leg < remaining {
                per_leg
            } else {
                remaining
            };
            self.prepare_new_leg(m);
            let before: usize = m.total;
            self.run_steps(detectors, draws, m, leg_steps);
            let ghost ended = m.model(self.bp_decoder@);
            let spent: usize = m.total - before;
            m.leg_iterations.push(spent);
            assert(m.model(self.bp_decoder@) =~= (MemberModel {
                legs: ended.legs.push(spent),
                ..ended
            }));
            if !m.success {
                self.update_gamma_from_posterior(draws, m);
            }
        }
    }

    /// Runs a member.
    fn run_member(&mut self, detectors: &Vec<Bit>, draws: &AdaptiveRelayDraws) -> (r: (
        DecodeResult,
        MemberRun,
    ))
        requires
            old(self).wf(),
            detectors.len() == old(self).bp_decoder@.matrix.rows,
        ensures
            final(self).wf(),
            final(self).same_code(*old(self)),
            ({
                let m = old(self).config.member(*draws, detectors@, old(self).bp_decoder@);
                &&& r.1.model(final(self).bp_decoder@) == m
                &&& r.0@ == old(self).config.member_result(m)
            }),
            r.0.decoding.len() == old(self).bp_decoder@.cols(),
            r.0.posterior_ratios.len() == old(self).bp_decoder@.cols(),
            r.0.success ==> old(self).bp_decoder@.matrix.mul_mod2(r.0.decoding@) == detectors@,
    {
        let ghost d = self.bp_decoder@;
        let ghost config = self.config;
        let cols: usize = self.bp_decoder.check_matrix.cols;
        let max_total: usize = at_least_one(self.config.maximum_iteration);
        self.bp_decoder.initialize_decoder();
        let initial: i64 = self.config.initial_gamma;
        let mut m: MemberRun = MemberRun {
            mu: vec![initial; cols],
            gamma: vec![initial; cols],
            total: 0,
            updates: 0,
            success: false,
            leg_iterations: Vec::new(),
            gamma_history: Vec::new(),
            clamp_applied_count: 0,
        };
        proof {
            let start = m.model(self.bp_decoder@);
            let gamma = Seq::new(d.cols(), |v: int| config.initial_gamma);
            assert(start =~= (MemberModel {
                bp: d.initialized(),
                mu: gamma,
                gamma,
                total: 0,
                updates: 0,
                success: false,
                legs: Seq::empty(),
                history: Seq::empty(),
                clamps: 0,
            }));
            assert(0 * cols == 0) by (nonlinear_arith);
        }
        self.apply_gamma(&mut m);
        let pre_iters: usize = if !self.config.pre_decoding {
            0
        } else if self.config.pre_iteration < max_total {
            self.config.pre_iteration
        } else {
            max_total
        };
        self.run_steps(detectors, draws, &mut m, pre_iters);
        let ghost first = m.model(self.bp_decoder@);
        if m.total > 0 {
            m.leg_iterations.push(m.total);
        }
        assert(m.model(self.bp_decoder@) =~= config.member_first(*draws, detectors@, d));
        if !m.success {
            match self.config.update_mode {
                AdaptiveRelayUpdateMode::PerIteration => {
                    self.run_each_iteration(detectors, draws, &mut m);
                },
                AdaptiveRelayUpdateMode::PerLeg => {
                    self.run_each_leg(detectors, draws, &mut m);
                },
            }
        }
        let decoded: Vec<Bit> = self.bp_decoder.compute_decoded_detectors();
        let mut result: DecodeResult = self.bp_decoder.build_result(m.success, decoded, max_total);
        result.iterations = m.total;
        assert(result@ =~= config.member_result(m.model(self.bp_decoder@)));
        (result, m)
    }

    /// Decodes a syndrome. `draws[k]` holds what was drawn for member `k`.
    pub fn decode_detailed(&mut self, detectors: &Vec<Bit>, draws: &Vec<AdaptiveRelayDraws>) -> (r:
        DecodeResult)
        requires
            old(self).wf(),
            draws.len() >= positive(old(self).config.ensemble_size),
            detectors.len() == old(self).bp_decoder@.matrix.rows,
        ensures
            final(self).wf(),
            final(self).same_code(*old(self)),
            ({
                let t = old(self).config.run(draws@, detectors@, old(self).bp_decoder@);
                &&& final(self).bp_decoder@ == t.last
                &&& r@ == old(self).config.member_result(t.chosen())
                &&& r.extra matches BPExtraResult::AdaptiveRelayTrace(e) && t.told(e)
            }),
            r.decoding.len() == old(self).bp_decoder@.cols(),
            r.posterior_ratios.len() == old(self).bp_decoder@.cols(),
            r.success ==> old(self).bp_decoder@.matrix.mul_mod2(r.decoding@) == detectors@,
    {
        let ghost d = self.bp_decoder@;
        let ghost config = self.config;
        let ghost all = config.run(draws@, detectors@, d);
        let ensemble_size: usize = at_least_one(self.config.ensemble_size);
        let ghost mut t = AdaptiveRun { members: Seq::empty(), last: d };
        let mut member_success: Vec<bool> = Vec::new();
        let mut discoveries: Vec<Option<usize>> = Vec::new();
        let mut totals: Vec<usize> = Vec::new();
        let (mut result, mut run) = self.run_member(detectors, &draws[0]);
        member_success.push(run.success);
        discoveries.push(
            if run.success {
                Some(run.total)
            } else {
                None
            },
        );
        totals.push(run.total);
        let mut done: bool = run.success;
        proof {
            let m = config.member(draws@[0], detectors@, d);
            t = AdaptiveRun { members: Seq::empty().push(m), last: m.bp };
        }
        let mut k: usize = 1;
        while k < ensemble_size && !done
            invariant
                self.wf(),
                self.same_code(*old(self)),
                self.config == config,
                self.bp_decoder@.matrix == d.matrix,
                self.bp_decoder@.config == d.config,
                draws.len() >= ensemble_size,
                ensemble_size == positive(config.ensemble_size),
                detectors.len() == d.matrix.rows,
                1 <= k <= ensemble_size,
                t.last == self.bp_decoder@,
                t.members.len() == k,
                done == t.members.last().success,
                member_success@ == Seq::new(k as nat, |j: int| t.members[j].success),
                discoveries@ == Seq::new(
                    k as nat,
                    |j: int|
                        if t.members[j].success {
                            Some(t.members[j].total as usize)
                        } else {
                            None
                        },
                ),
                totals@ == Seq::new(k as nat, |j: int| t.members[j].total as usize),
                result@ == config.member_result(t.chosen()),
                run.model(t.chosen().bp) == t.chosen(),
                result.decoding.len() == d.cols(),
                result.posterior_ratios.len() == d.cols(),
                result.success ==> d.matrix.mul_mod2(result.decoding@) == detectors@,
                all == (if done {
                    t
                } else {
                    config.members_from(draws@, detectors@, t, k as nat)
                }),
            decreases ensemble_size - k + (if done {
                0int
            } else {
                1
            }),
        {
            let (next_result, next_run) = self.run_member(detectors, &draws[k]);
            member_success.push(next_run.success);
            discoveries.push(
                if next_run.success {
                    Some(next_run.total)
                } else {
                    None
                },
            );
            totals.push(next_run.total);
            let ghost m = config.member(draws@[k as int], detectors@, t.last);
            let ghost next = AdaptiveRun { members: t.members.push(m), last: m.bp };
            proof {
                assert(next.members[0] == t.members[0]);
                assert(member_success@ =~= Seq::new(
                    (k + 1) as nat,
                    |j: int| next.members[j].success,
                ));
                assert(discoveries@ =~= Seq::new(
                    (k + 1) as nat,
                    |j: int|
                        if next.members[j].success {
                            Some(next.members[j].total as usize)
                        } else {
                            None
                        },
                ));
                assert(totals@ =~= Seq::new(
                    (k + 1) as nat,
                    |j: int| next.members[j].total as usize,
                ));
            }
            if next_run.success {
                result = next_result;
                run = next_run;
                done = true;
            }
            proof {
                t = next;
            }
            k += 1;
        }
        let winner_member_index: Option<usize> = if done {
            Some(k - 1)
        } else {
            None
        };
        result.extra =
        BPExtraResult::AdaptiveRelayTrace(
            AdaptiveRelayTrace {
                executed_members: k,
                winner_member_index,
                member_success,
                member_discovery_iterations: discoveries,
                member_total_iterations: totals,
                leg_iterations: run.leg_iterations,
                gamma_history: run.gamma_history,
                clamp_applied_count: run.clamp_applied_count,
            },
        );
        assert(result@ =~= config.member_result(t.chosen()));
        result
    }
}

/// The sum of the iterations of legs.
pub open spec fn spent(legs: Seq<usize>) -> nat
    decreases legs.len(),
{
    if legs.len() == 0 {
        0
    } else {
        spent(legs.drop_last()) + legs.last() as nat
    }
}

proof fn lemma_spent_push(legs: Seq<usize>, n: usize)
    ensures
        spent(legs.push(n)) == spent(legs) + n,
{
    assert(legs.push(n).drop_last() =~= legs);
}

proof fn lemma_steps(
    config: AdaptiveRelayDecoderConfig,
    draws: AdaptiveRelayDraws,
    det: Seq<Bit>,
    m: MemberModel,
    n: nat,
)
    requires
        !m.success,
    ensures
        ({
            let last = config.steps(draws, det, m, n);
            &&& last.legs == m.legs
            &&& m.total <= last.total <= m.total + n
            &&& last.bp.matrix == m.bp.matrix
            &&& n > 0 ==> (last.success <==> last.bp.converged(det))
            &&& !last.success ==> last.total == m.total + n
        }),
    decreases n,
{
    if n > 0 {
        let next = config.step(draws, det, m);
        if !next.success {
            lemma_steps(config, draws, det, next, (n - 1) as nat);
        }
    }
}

proof fn lemma_each_iteration(
    config: AdaptiveRelayDecoderConfig,
    draws: AdaptiveRelayDraws,
    det: Seq<Bit>,
    m: MemberModel,
    n: nat,
)
    requires
        !m.success,
        spent(m.legs) == m.total,
    ensures
        ({
            let last = config.each_iteration(draws, det, m, n);
            &&& spent(last.legs) == last.total <= m.total + n
            &&& last.bp.matrix == m.bp.matrix
            &&& n > 0 ==> (last.success <==> last.bp.converged(det))
            &&& !last.success ==> last.total == m.total + n
        }),
    decreases n,
{
    if n > 0 {
        let next = config.step(draws, det, m);
        let counted = MemberModel { legs: next.legs.push(1), ..next };
        lemma_spent_push(next.legs, 1);
        if !counted.success {
            lemma_each_iteration(
                config,
                draws,
                det,
                config.applied(config.retuned(draws, counted)),
                (n - 1) as nat,
            );
        }
    }
}

proof fn lemma_each_leg(
    config: AdaptiveRelayDecoderConfig,
    draws: AdaptiveRelayDraws,
    det: Seq<Bit>,
    m: MemberModel,
    n: nat,
)
    requires
        !m.success,
        spent(m.legs) == m.total,
        m.total + n <= usize::MAX,
    ensures
        ({
            let last = config.each_leg(draws, det, m, n);
            &&& spent(last.legs) == last.total <= m.total + n
            &&& last.bp.matrix == m.bp.matrix
            &&& n > 0 ==> (last.success <==> last.bp.converged(det))
            &&& !last.success ==> last.total == m.total + n
        }),
    decreases n,
{
    if n > 0 {
        let begun = config.leg_start(m);
        let steps = config.leg_length(n);
        lemma_steps(config, draws, det, begun, steps);
        let ended = config.steps(draws, det, begun, steps);
        let here = (ended.total - begun.total) as usize;
        let counted = MemberModel { legs: ended.legs.push(here), ..ended };
        lemma_spent_push(ended.legs, here);
        if !counted.success {
            lemma_each_leg(
                config,
                draws,
                det,
                config.retuned(draws, counted),
                (n - steps) as nat,
            );
        }
    }
}

/// A member does as many iterations as its legs have together and never more than its limit;
/// it does fewer only where it converges. Its result is consistent.
pub proof fn law_adaptive_member(
    config: AdaptiveRelayDecoderConfig,
    draws: AdaptiveRelayDraws,
    det: Seq<Bit>,
    d: BpModel,
)
    ensures
        ({
            let m = config.member(draws, det, d);
            &&& spent(m.legs) == m.total
            &&& m.total <= positive(config.maximum_iteration)
            &&& !m.success ==> m.total == positive(config.maximum_iteration)
            &&& consistent(d.matrix, det, config.member_result(m))
        }),
{
    let limit = positive(config.maximum_iteration);
    let start = config.member_start(d);
    lemma_steps(config, draws, det, start, config.first_length());
    let stepped = config.steps(draws, det, start, config.first_length());
    lemma_spent_push(stepped.legs, stepped.total as usize);
    let first = config.member_first(draws, det, d);
    let left = (limit - first.total) as nat;
    if !first.success {
        match config.update_mode {
            AdaptiveRelayUpdateMode::PerIteration => {
                lemma_each_iteration(config, draws, det, first, left);
            },
            AdaptiveRelayUpdateMode::PerLeg => {
                lemma_each_leg(config, draws, det, first, left);
            },
        }
    }
}

proof fn lemma_members_from(
    config: AdaptiveRelayDecoderConfig,
    draws: Seq<AdaptiveRelayDraws>,
    det: Seq<Bit>,
    t: AdaptiveRun,
    k: nat,
)
    requires
        t.members.len() == k,
        k <= positive(config.ensemble_size),
        forall|j: int| 0 <= j < k ==> !(#[trigger] t.members[j]).success,
    ensures
        ({
            let all = config.members_from(draws, det, t, k);
            &&& k <= all.members.len() <= positive(config.ensemble_size)
            &&& k < positive(config.ensemble_size) ==> all.members.len() > k
            &&& forall|j: int|
                0 <= j < all.members.len() - 1 ==> !(#[trigger] all.members[j]).success
            &&& all.members.len() < positive(config.ensemble_size)
                ==> all.members.last().success
        }),
    decreases positive(config.ensemble_size) - k,
{
    if k < positive(config.ensemble_size) {
        let m = config.member(draws[k as int], det, t.last);
        let next = AdaptiveRun { members: t.members.push(m), last: m.bp };
        assert forall|j: int| 0 <= j < k implies !(#[trigger] next.members[j]).success by {
            assert(next.members[j] == t.members[j]);
        }
        if !m.success {
            lemma_members_from(config, draws, det, next, k + 1);
        }
    }
}

/// The members of an adaptive decoder try one after the other until one converges: every
/// member before the last failed, and the member that is reported is a success exactly if
/// some member is.
pub proof fn law_adaptive_stops(
    config: AdaptiveRelayDecoderConfig,
    draws: Seq<AdaptiveRelayDraws>,
    det: Seq<Bit>,
    d: BpModel,
)
    ensures
        ({
            let t = config.run(draws, det, d);
            &&& 1 <= t.members.len() <= positive(config.ensemble_size)
            &&& forall|j: int|
                0 <= j < t.members.len() - 1 ==> !(#[trigger] t.members[j]).success
            &&& t.members.len() < positive(config.ensemble_size) ==> t.chosen().success
            &&& t.chosen().success <==> t.members.last().success
        }),
{
    lemma_members_from(
        config,
        draws,
        det,
        AdaptiveRun { members: Seq::empty(), last: d },
        0,
    );
}

/// An adaptive decoder together with what was drawn for it.
#[derive(Clone, Debug)]
pub struct DrawnAdaptiveDecoder {
    pub adaptive: AdaptiveRelayDecoder,
    /// What was drawn for each decoding to come.
    pub supply: Vec<Vec<AdaptiveRelayDraws>>,
}

/// What such a decoder holds.
#[verifier::ext_equal]
pub struct DrawnAdaptiveModel {
    pub config: AdaptiveRelayDecoderConfig,
    pub bp: BpModel,
    pub supply: Seq<Vec<AdaptiveRelayDraws>>,
}

impl DrawnAdaptiveModel {
    /// The members of decoding `det`.
    pub open spec fn run(self, det: Seq<Bit>) -> AdaptiveRun {
        self.config.run(self.supply[0]@, det, self.bp)
    }
}

impl Decoder for DrawnAdaptiveDecoder {
    type M = DrawnAdaptiveModel;

    open spec fn model(&self) -> DrawnAdaptiveModel {
        DrawnAdaptiveModel {
            config: self.adaptive.config,
            bp: self.adaptive.bp_decoder@,
            supply: self.supply@,
        }
    }

    open spec fn ready(m: DrawnAdaptiveModel) -> bool {
        &&& m.bp.wf()
        &&& m.config.wf(m.bp.cols(), m.bp.config.one())
        &&& forall|k: int|
            0 <= k < m.supply.len() ==> (#[trigger] m.supply[k]).len() >= positive(
                m.config.ensemble_size,
            )
    }

    open spec fn code(m: DrawnAdaptiveModel) -> MatrixModel {
        m.bp.matrix
    }

    open spec fn weights(m: DrawnAdaptiveModel) -> Seq<i64> {
        m.bp.config.priors
    }

    open spec fn outcome(m: DrawnAdaptiveModel, det: Seq<Bit>) -> ResultModel {
        m.config.member_result(m.run(det).chosen())
    }

    open spec fn noted(m: DrawnAdaptiveModel, det: Seq<Bit>, extra: BPExtraResult) -> bool {
        extra matches BPExtraResult::AdaptiveRelayTrace(e) && m.run(det).told(e)
    }

    open spec fn next(m: DrawnAdaptiveModel, det: Seq<Bit>) -> DrawnAdaptiveModel {
        DrawnAdaptiveModel { bp: m.run(det).last, supply: m.supply.skip(1), ..m }
    }

    open spec fn lasts(m: DrawnAdaptiveModel, n: nat) -> bool {
        m.supply.len() >= n
    }

    proof fn lemma_ready(m: DrawnAdaptiveModel) {
    }

    proof fn lemma_lasts(m: DrawnAdaptiveModel, det: Seq<Bit>, n: nat) {
    }

    fn can_decode(&self, n: usize) -> (r: bool) {
        self.supply.len() >= n
    }

    fn check_matrix(&self) -> (r: &SparseBitMatrix) {
        &self.adaptive.bp_decoder.check_matrix
    }

    fn log_prior_ratios(&self) -> (r: Vec<i64>) {
        self.adaptive.bp_decoder.config.log_prior_ratios.clone()
    }

    fn decode_detailed(&mut self, detectors: &Vec<Bit>) -> (r: DecodeResult) {
        let ghost m = self.model();
        let own: Vec<AdaptiveRelayDraws> = self.supply.remove(0);
        let r = self.adaptive.decode_detailed(detectors, &own);
        assert(self.model() =~= Self::next(m, detectors@));
        assert(Self::noted(m, detectors@, r.extra));
        r
    }
}

} // verus!
