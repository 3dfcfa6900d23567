//! Belief propagation in legs with damping, memory and bias of their own for each variable.

use vstd::prelude::*;

use crate::arith::{
    abs, bound, divide, lemma_product_bound, lemma_shrunk_bound, lemma_sum_bound, lemma_sum_push,
    lemma_trunc_div_bound, magnitude, narrow, sum, trunc_div,
};
use crate::decoder::{
    consistent, negatives, negatives_below, BPExtraResult, DecodeResult, Decoder, ResultModel,
};
use crate::dual_relay::{at_least_one, positive};
use crate::matrix::{Bit, MatrixModel, SparseBitMatrix};
use crate::min_sum::{is_gain, BpModel, ConfigModel, MinSumBPDecoder, MinSumDecoderConfig};
use crate::relay::{are_gains, final_leg, total_iterations};

verus! {

/// Where the value of each variable comes from.
#[derive(Clone, Copy, Debug, PartialEq, Eq, Structural)]
pub enum SamplingMode {
    /// One value for all.
    Fixed,
    /// A value drawn for each.
    IntervalRandom,
}

/// Which variables are biased.
#[derive(Clone, Copy, Debug, PartialEq, Eq, Structural)]
pub enum BiasApplyMode {
    /// All of them.
    All,
    /// Those of low confidence.
    Filter,
}

/// The parameters of a disordered decoder.
#[derive(Clone, Copy, Debug)]
pub struct DisorderedBPDecoderConfig {
    /// The most iterations of the first leg; at least one is done.
    pub t_0: usize,
    /// The most legs; at least one is run.
    pub maximum_leg: usize,
    /// The most iterations of each leg after the first; at least one is done.
    pub iteration_per_leg: usize,
    /// The damping in the first leg.
    pub initial_alpha: i64,
    pub alpha_mode: SamplingMode,
    pub alpha_fixed: i64,
    /// The memory strength in the first leg.
    pub initial_gamma: i64,
    pub gamma_mode: SamplingMode,
    pub gamma_fixed: i64,
    pub bias_mode: SamplingMode,
    pub bias_fixed: i64,
    pub bias_apply_mode: BiasApplyMode,
    /// The largest magnitude of a posterior of low confidence; its sign does not count.
    pub bias_filter_threshold: i64,
    /// The share of the posteriors that is handed on to the next leg; between zero and one
    /// unit.
    pub carry_marginal_factor: i64,
}

/// What was drawn for one leg after the first.
#[derive(Clone, Debug)]
pub struct DisorderedDraws {
    /// A damping for each variable.
    pub alphas: Vec<i64>,
    /// A memory strength for each variable.
    pub gammas: Vec<i64>,
    /// A bias for each variable.
    pub biases: Vec<i64>,
    /// A coin for each variable, which tells whether its bias changes sign.
    pub flips: Vec<bool>,
}

/// How one leg ended.
#[derive(Clone, Debug)]
pub struct DisorderedBPLegTrace {
    pub success: bool,
    pub iterations: usize,
    /// The number of negative posteriors.
    pub negative_llr_count: usize,
    pub decoding: Vec<Bit>,
    pub posterior: Vec<i64>,
    /// The mean damping.
    pub alpha_mean: i64,
    /// The mean memory strength.
    pub gamma_mean: i64,
    /// The mean magnitude of the biases that were applied.
    pub bias_mean: i64,
    pub bias_applied_count: usize,
}

/// The legs that were run and the state after the last.
#[verifier::ext_equal]
pub struct DisorderedRun {
    pub legs: Seq<ResultModel>,
    pub last: BpModel,
}

/// The mean of values, brought into range; zero of none.
pub open spec fn mean(values: Seq<i64>) -> int {
    if values.len() == 0 {
        0
    } else {
        bound(trunc_div(sum(values), values.len() as int), i64::MAX as int)
    }
}

/// The magnitudes of the first `n` values that are marked.
pub open spec fn marked_below(values: Seq<i64>, marks: Seq<bool>, n: nat) -> Seq<i64>
    decreases n,
{
    if n == 0 {
        Seq::empty()
    } else {
        let before = marked_below(values, marks, (n - 1) as nat);
        if marks[n - 1] {
            before.push(abs(values[n - 1] as int) as i64)
        } else {
            before
        }
    }
}

/// The magnitudes of the values that are marked.
pub open spec fn marked(values: Seq<i64>, marks: Seq<bool>) -> Seq<i64> {
    marked_below(values, marks, values.len())
}

/// `values` scaled by a factor, where the unit is `one`.
pub open spec fn shrunk(values: Seq<i64>, factor: int, one: int) -> Seq<i64> {
    Seq::new(values.len(), |v: int| trunc_div(factor * values[v], one) as i64)
}

impl BpModel {
    /// The posteriors of marked variables have their bias on top.
    pub open spec fn biased(self, biases: Seq<i64>, marks: Seq<bool>) -> BpModel {
        BpModel {
            posterior: Seq::new(
                self.posterior.len(),
                |v: int|
                    if marks[v] {
                        bound(self.posterior[v] + biases[v], i64::MAX as int) as i64
                    } else {
                        self.posterior[v]
                    },
            ),
            ..self
        }.decided()
    }

    /// One iteration, after which marked posteriors are biased if there is a bias.
    pub open spec fn disordered_step(
        self,
        det: Seq<Bit>,
        bias: Option<(Seq<i64>, Seq<bool>)>,
    ) -> BpModel {
        let next = self.iterate(det, Seq::empty());
        match bias {
            Some(b) => next.biased(b.0, b.1).counted(),
            None => next.counted(),
        }
    }

    /// Iterating in this way until the decoding explains the detectors, `n` times at most.
    pub open spec fn disordered(
        self,
        det: Seq<Bit>,
        bias: Option<(Seq<i64>, Seq<bool>)>,
        n: nat,
    ) -> BpModel
        decreases n,
    {
        if n == 0 {
            self
        } else {
            let next = self.disordered_step(det, bias);
            if next.converged(det) {
                next
            } else {
                next.disordered(det, bias, (n - 1) as nat)
            }
        }
    }
}

impl DisorderedBPDecoderConfig {
    /// The parameters are in range, where the unit is `one`.
    pub open spec fn wf(self, one: int) -> bool {
        &&& is_gain(self.initial_gamma)
        &&& is_gain(self.gamma_fixed)
        &&& self.bias_fixed > i64::MIN
        &&& self.bias_filter_threshold > i64::MIN
        &&& 0 <= self.carry_marginal_factor <= one
        &&& self.fits()
    }

    /// The iterations of all legs can be counted.
    pub open spec fn fits(self) -> bool {
        positive(self.t_0) + (positive(self.maximum_leg) - 1) * positive(self.iteration_per_leg)
            <= usize::MAX
    }

    /// The most iterations of leg `leg`.
    pub open spec fn budget(self, leg: nat) -> nat {
        if leg == 0 {
            positive(self.t_0)
        } else {
            positive(self.iteration_per_leg)
        }
    }

    /// The most iterations that are reported for all legs.
    pub open spec fn reported_limit(self) -> nat {
        (self.t_0 + (positive(self.maximum_leg) - 1) * self.iteration_per_leg) as nat
    }

    /// What was drawn suffices for all legs.
    pub open spec fn supplied(self, draws: Seq<DisorderedDraws>, cols: nat) -> bool {
        &&& draws.len() + 1 >= positive(self.maximum_leg)
        &&& forall|l: int|
            0 <= l < positive(self.maximum_leg) - 1 ==> self.supplies(#[trigger] draws[l], cols)
    }

    /// What was drawn suffices for one leg.
    pub open spec fn supplies(self, draws: DisorderedDraws, cols: nat) -> bool {
        &&& self.alpha_mode is IntervalRandom ==> draws.alphas.len() == cols
        &&& self.gamma_mode is IntervalRandom ==> are_gains(draws.gammas@, cols)
        &&& self.bias_mode is IntervalRandom ==> {
            &&& draws.biases.len() == cols
            &&& forall|v: int| 0 <= v < cols ==> (#[trigger] draws.biases[v]) > i64::MIN
        }
        &&& draws.flips.len() == cols
    }

    /// One value for each of `cols` variables.
    pub open spec fn sampled(
        mode: SamplingMode,
        fixed: i64,
        drawn: Seq<i64>,
        cols: nat,
    ) -> Seq<i64> {
        match mode {
            SamplingMode::Fixed => Seq::new(cols, |v: int| fixed),
            SamplingMode::IntervalRandom => drawn,
        }
    }

    /// The damping of each variable in leg `leg`.
    pub open spec fn alphas_at(self, draws: Seq<DisorderedDraws>, leg: nat, cols: nat) -> Seq<i64> {
        if leg == 0 {
            Seq::new(cols, |v: int| self.initial_alpha)
        } else {
            Self::sampled(self.alpha_mode, self.alpha_fixed, draws[leg - 1].alphas@, cols)
        }
    }

    /// The memory strength of each variable in leg `leg`.
    pub open spec fn gammas_at(self, draws: Seq<DisorderedDraws>, leg: nat, cols: nat) -> Seq<i64> {
        if leg == 0 {
            Seq::new(cols, |v: int| self.initial_gamma)
        } else {
            Self::sampled(self.gamma_mode, self.gamma_fixed, draws[leg - 1].gammas@, cols)
        }
    }

    /// The bias of each variable in leg `leg`: none in the first; else the sampled value,
    /// whose sign a coin may change.
    pub open spec fn biases_at(self, draws: Seq<DisorderedDraws>, leg: nat, cols: nat) -> Seq<i64> {
        if leg == 0 {
            Seq::new(cols, |v: int| 0i64)
        } else {
            let values = Self::sampled(
                self.bias_mode,
                self.bias_fixed,
                draws[leg - 1].biases@,
                cols,
            );
            Seq::new(
                cols,
                |v: int|
                    if draws[leg - 1].flips[v] {
                        (-values[v]) as i64
                    } else {
                        values[v]
                    },
            )
        }
    }

    /// The variables that are biased in leg `leg`, after a leg that ended with the posteriors
    /// `previous`.
    pub open spec fn mask_at(self, leg: nat, previous: Seq<i64>) -> Seq<bool> {
        if leg == 0 {
            Seq::new(previous.len(), |v: int| false)
        } else {
            match self.bias_apply_mode {
                BiasApplyMode::All => Seq::new(previous.len(), |v: int| true),
                BiasApplyMode::Filter => Seq::new(
                    previous.len(),
                    |v: int|
                        abs(previous[v] as int) <= abs(self.bias_filter_threshold as int),
                ),
            }
        }
    }

    /// The posteriors that leg `leg` looks back at, after a leg that ended in `d`.
    pub open spec fn looked_back(self, d: BpModel, leg: nat) -> Seq<i64> {
        if leg == 0 {
            d.config.priors
        } else {
            d.posterior
        }
    }

    /// Leg `leg` starts after a leg that ended in `d`.
    pub open spec fn leg_start(self, draws: Seq<DisorderedDraws>, d: BpModel, leg: nat) -> BpModel {
        BpModel {
            iteration: 0,
            alphas: Some(self.alphas_at(draws, leg, d.cols())),
            memory: self.gammas_at(draws, leg, d.cols()),
            priors: d.config.priors,
            posterior: if leg == 0 {
                d.config.priors
            } else {
                shrunk(d.posterior, self.carry_marginal_factor as int, d.config.one())
            },
            ..d
        }.checks_silent().variables_at_prior()
    }

    /// The bias of leg `leg`.
    pub open spec fn bias(self, draws: Seq<DisorderedDraws>, d: BpModel, leg: nat) -> Option<
        (Seq<i64>, Seq<bool>),
    > {
        if leg == 0 {
            None
        } else {
            Some(
                (
                    self.biases_at(draws, leg, d.cols()),
                    self.mask_at(leg, self.looked_back(d, leg)),
                ),
            )
        }
    }

    /// The run with leg `leg` added.
    pub open spec fn leg_added(
        self,
        draws: Seq<DisorderedDraws>,
        det: Seq<Bit>,
        t: DisorderedRun,
        leg: nat,
    ) -> DisorderedRun {
        let last = self.leg_start(draws, t.last, leg).disordered(
            det,
            self.bias(draws, t.last, leg),
            self.budget(leg),
        );
        DisorderedRun {
            legs: t.legs.push(
                last.result(last.converged(det), last.decoded_detectors(), self.reported_limit()),
            ),
            last,
        }
    }

    /// Running the legs from `leg` on, until one converges.
    pub open spec fn legs_from(
        self,
        draws: Seq<DisorderedDraws>,
        det: Seq<Bit>,
        t: DisorderedRun,
        leg: nat,
    ) -> DisorderedRun
        decreases positive(self.maximum_leg) - leg,
    {
        if leg >= positive(self.maximum_leg) {
            t
        } else {
            let next = self.leg_added(draws, det, t, leg);
            if next.legs.last().success {
                next
            } else {
                self.legs_from(draws, det, next, leg + 1)
            }
        }
    }

    /// All legs of a decoder in the state `d`.
    pub open spec fn run(self, draws: Seq<DisorderedDraws>, det: Seq<Bit>, d: BpModel) -> DisorderedRun {
        self.legs_from(draws, det, DisorderedRun { legs: Seq::empty(), last: d }, 0)
    }

    /// The parameters of the min-sum decoder: memory, no messages dropped.
    pub open spec fn inner(self, config: ConfigModel) -> ConfigModel {
        ConfigModel {
            max_iter: self.reported_limit() as usize,
            alpha: Some(self.alpha_fixed),
            gamma0: Some(self.initial_gamma),
            drop_enabled: false,
            drop_threshold: 0,
            ..config
        }
    }

    /// What is told of leg `leg`, whose result is `result` and which follows posteriors
    /// `previous`.
    pub open spec fn told(
        self,
        draws: Seq<DisorderedDraws>,
        leg: nat,
        previous: Seq<i64>,
        result: ResultModel,
        e: DisorderedBPLegTrace,
    ) -> bool {
        let cols = previous.len();
        let applied = marked(self.biases_at(draws, leg, cols), self.mask_at(leg, previous));
        &&& e.success == result.success
        &&& e.iterations == result.iterations
        &&& e.negative_llr_count == negatives(result.posterior)
        &&& e.decoding@ == result.decoding
        &&& e.posterior@ == result.posterior
        &&& e.alpha_mean == mean(self.alphas_at(draws, leg, cols))
        &&& e.gamma_mean == mean(self.gammas_at(draws, leg, cols))
        &&& e.bias_mean == mean(applied)
        &&& e.bias_applied_count == applied.len()
    }

    /// What is told of a list of legs of a decoder whose priors are `priors`.
    pub open spec fn all_told(
        self,
        draws: Seq<DisorderedDraws>,
        priors: Seq<i64>,
        legs: Seq<ResultModel>,
        e: Seq<DisorderedBPLegTrace>,
    ) -> bool {
        &&& e.len() == legs.len()
        &&& forall|l: int|
            0 <= l < e.len() ==> self.told(
                draws,
                l as nat,
                if l == 0 {
                    priors
                } else {
                    legs[l - 1].posterior
                },
                legs[l],
                #[trigger] e[l],
            )
    }
}

/// A disordered decoder never runs on after a leg that converged, and its result, the last
/// leg, is consistent.
pub proof fn law_disordered_stops(
    config: DisorderedBPDecoderConfig,
    draws: Seq<DisorderedDraws>,
    det: Seq<Bit>,
    d: BpModel,
)
    requires
        d.decoding.len() == d.cols(),
    ensures
        ({
            let t = config.run(draws, det, d);
            &&& 1 <= t.legs.len() <= positive(config.maximum_leg)
            &&& forall|l: int| 0 <= l < t.legs.len() - 1 ==> !(#[trigger] t.legs[l]).success
            &&& t.legs.len() < positive(config.maximum_leg) ==> final_leg(t.legs).success
            &&& consistent(d.matrix, det, final_leg(t.legs))
        }),
{
    lemma_legs_from(config, draws, det, DisorderedRun { legs: Seq::empty(), last: d }, 0);
}

proof fn lemma_disordered_keeps(
    d: BpModel,
    det: Seq<Bit>,
    bias: Option<(Seq<i64>, Seq<bool>)>,
    n: nat,
)
    ensures
        d.disordered(det, bias, n).matrix == d.matrix,
        d.disordered(det, bias, n).config == d.config,
    decreases n,
{
    if n > 0 {
        let next = d.disordered_step(det, bias);
        if !next.converged(det) {
            lemma_disordered_keeps(next, det, bias, (n - 1) as nat);
        }
    }
}

proof fn lemma_legs_from(
    config: DisorderedBPDecoderConfig,
    draws: Seq<DisorderedDraws>,
    det: Seq<Bit>,
    t: DisorderedRun,
    leg: nat,
)
    requires
        t.legs.len() == leg,
        leg <= positive(config.maximum_leg),
        forall|l: int| 0 <= l < t.legs.len() ==> !(#[trigger] t.legs[l]).success,
    ensures
        ({
            let all = config.legs_from(draws, det, t, leg);
            &&& leg <= all.legs.len() <= positive(config.maximum_leg)
            &&& leg < positive(config.maximum_leg) ==> all.legs.len() > leg
            &&& forall|l: int| 0 <= l < all.legs.len() - 1 ==> !(#[trigger] all.legs[l]).success
            &&& all.legs.len() < positive(config.maximum_leg) ==> all.legs.last().success
            &&& leg < positive(config.maximum_leg) ==> consistent(
                t.last.matrix,
                det,
                all.legs.last(),
            )
        }),
    decreases positive(config.maximum_leg) - leg,
{
    if leg < positive(config.maximum_leg) {
        let next = config.leg_added(draws, det, t, leg);
        let start = config.leg_start(draws, t.last, leg);
        lemma_disordered_keeps(start, det, config.bias(draws, t.last, leg), config.budget(leg));
        assert forall|l: int| 0 <= l < next.legs.len() - 1 implies !(
        #[trigger] next.legs[l]).success by {
            assert(next.legs[l] == t.legs[l]);
        }
        if !next.legs.last().success {
            assert forall|l: int| 0 <= l < next.legs.len() implies !(
            #[trigger] next.legs[l]).success by {
                if l < t.legs.len() {
                    assert(next.legs[l] == t.legs[l]);
                }
            }
            lemma_legs_from(config, draws, det, next, leg + 1);
        }
    }
}

/// The mean of values.
pub fn mean_of(values: &Vec<i64>) -> (r: i64)
    ensures
        r == mean(values@),
{
    if values.len() == 0 {
        return 0;
    }
    let mut total: i128 = 0;
    let mut i: usize = 0;
    assert(values@.take(0) =~= Seq::empty());
    while i < values.len()
        invariant
            i <= values.len(),
            total == sum(values@.take(i as int)),
        decreases values.len() - i,
    {
        proof {
            let shorter = values@.take(i as int);
            let longer = values@.take(i + 1);
            assert(longer =~= shorter.push(values@[i as int]));
            lemma_sum_push(shorter, values@[i as int]);
            lemma_sum_bound(longer);
            assert(longer.len() * 0x8000_0000_0000_0000 <= 0xffff_ffff_ffff_ffff
                * 0x8000_0000_0000_0000) by (nonlinear_arith)
                requires
                    longer.len() <= 0xffff_ffff_ffff_ffff,
            ;
        }
        total = total + (values[i] as i128);
        i += 1;
    }
    proof {
        assert(values@.take(values@.len() as int) =~= values@);
        lemma_sum_bound(values@);
        let n = values@.len();
        assert(n * 0x8000_0000_0000_0000 <= 0xffff_ffff_ffff_ffff * 0x8000_0000_0000_0000)
            by (nonlinear_arith)
            requires
                n <= 0xffff_ffff_ffff_ffff,
        ;
        lemma_trunc_div_bound(total as int, n as int);
    }
    let n: i128 = values.len() as i128;
    let quotient: i128 = if total >= 0 {
        total / n
    } else {
        -((-total) / n)
    };
    narrow(quotient, i64::MAX)
}

/// The magnitudes of the values that are marked.
fn marked_of(values: &Vec<i64>, marks: &Vec<bool>) -> (r: Vec<i64>)
    requires
        values.len() == marks.len(),
        forall|v: int| 0 <= v < values.len() ==> values[v] > i64::MIN,
    ensures
        r@ == marked(values@, marks@),
{
    let mut r: Vec<i64> = Vec::new();
    let mut v: usize = 0;
    while v < values.len()
        invariant
            values.len() == marks.len(),
            forall|u: int| 0 <= u < values.len() ==> values[u] > i64::MIN,
            v <= values.len(),
            r@ == marked_below(values@, marks@, v as nat),
        decreases values.len() - v,
    {
        if marks[v] {
            r.push(magnitude(values[v]));
        }
        v += 1;
    }
    r
}

/// One value for each of `cols` variables.
fn sample_vector(mode: SamplingMode, fixed: i64, drawn: &Vec<i64>, cols: usize) -> (r: Vec<i64>)
    ensures
        r@ == DisorderedBPDecoderConfig::sampled(mode, fixed, drawn@, cols as nat),
{
    match mode {
        SamplingMode::Fixed => {
            let r: Vec<i64> = vec![fixed; cols];
            assert(r@ =~= Seq::new(cols as nat, |v: int| fixed));
            r
        },
        SamplingMode::IntervalRandom => drawn.clone(),
    }
}

impl DisorderedBPDecoderConfig {
    /// The parameters that a decoder starts from, where the unit is `one`.
    pub fn with_unit(one: i64) -> (r: Self)
        requires
            1 <= one <= i64::MAX / 8,
        ensures
            r.wf(one as int),
            r.t_0 == 80,
            r.maximum_leg == 100,
            r.iteration_per_leg == 60,
            r.initial_alpha == one * 5 / 8,
            r.alpha_mode is IntervalRandom,
            r.alpha_fixed == one * 5 / 8,
            r.initial_gamma == one / 8,
            r.gamma_mode is IntervalRandom,
            r.gamma_fixed == one / 8,
            r.bias_mode is Fixed,
            r.bias_fixed == 0,
            r.bias_apply_mode is All,
            r.bias_filter_threshold == one,
            r.carry_marginal_factor == one,
    {
        DisorderedBPDecoderConfig {
            t_0: 80,
            maximum_leg: 100,
            iteration_per_leg: 60,
            initial_alpha: one * 5 / 8,
            alpha_mode: SamplingMode::IntervalRandom,
            alpha_fixed: one * 5 / 8,
            initial_gamma: one / 8,
            gamma_mode: SamplingMode::IntervalRandom,
            gamma_fixed: one / 8,
            bias_mode: SamplingMode::Fixed,
            bias_fixed: 0,
            bias_apply_mode: BiasApplyMode::All,
            bias_filter_threshold: one,
            carry_marginal_factor: one,
        }
    }

    /// The parameters of a min-sum decoder with the given priors.
    pub fn min_sum_template_from_priors(
        &self,
        priors: Vec<i64>,
        data_scale_value: Option<i64>,
    ) -> (r: MinSumDecoderConfig)
        requires
            self.fits(),
        ensures
            r@ == (ConfigModel {
                priors: priors@,
                max_iter: self.reported_limit() as usize,
                alpha: Some(self.initial_alpha),
                alpha_schedule: Seq::empty(),
                gamma0: Some(self.initial_gamma),
                scale: data_scale_value,
                max_data: None,
                drop_enabled: false,
                drop_threshold: 0,
                whole_units: false,
            }),
    {
        let r = MinSumDecoderConfig {
            log_prior_ratios: priors,
            max_iter: self.limit_of_legs(),
            alpha: Some(self.initial_alpha),
            alpha_schedule: Vec::new(),
            gamma0: Some(self.initial_gamma),
            data_scale_value,
            max_data_value: None,
            enable_variable_message_drop: false,
            drop_llr_threshold: 0,
            whole_units: false,
        };
        assert(r@.alpha_schedule =~= Seq::empty());
        r
    }

    /// The most iterations that are reported for all legs.
    fn limit_of_legs(&self) -> (r: usize)
        requires
            self.fits(),
        ensures
            r == self.reported_limit(),
    {
        let others: usize = at_least_one(self.maximum_leg) - 1;
        proof {
            assert(others * self.iteration_per_leg <= others * positive(self.iteration_per_leg))
                by (nonlinear_arith)
                requires
                    others >= 0,
                    self.iteration_per_leg <= positive(self.iteration_per_leg),
            ;
            assert(others * self.iteration_per_leg >= 0) by (nonlinear_arith)
                requires
                    others >= 0,
                    self.iteration_per_leg >= 0,
            ;
        }
        self.t_0 + others * self.iteration_per_leg
    }

    /// The biases of leg `leg`.
    fn sample_bias_for_leg(&self, draws: &Vec<DisorderedDraws>, leg: usize, cols: usize) -> (r: Vec<
        i64,
    >)
        requires
            self.bias_fixed > i64::MIN,
            self.supplied(draws@, cols as nat),
            leg < positive(self.maximum_leg),
        ensures
            r@ == self.biases_at(draws@, leg as nat, cols as nat),
            r.len() == cols,
            forall|v: int| 0 <= v < cols ==> r[v] > i64::MIN,
    {
        let ghost expected = self.biases_at(draws@, leg as nat, cols as nat);
        if leg == 0 {
            let r: Vec<i64> = vec![0; cols];
            assert(r@ =~= expected);
            return r;
        }
        assert(self.supplies(draws@[leg - 1], cols as nat));
        let values: Vec<i64> = sample_vector(
            self.bias_mode,
            self.bias_fixed,
            &draws[leg - 1].biases,
            cols,
        );
        proof {
            assert(values.len() == cols);
            assert forall|v: int| 0 <= v < cols implies values[v] > i64::MIN by {
                if self.bias_mode is IntervalRandom {
                    assert(draws@[leg - 1].biases[v] > i64::MIN);
                }
            }
        }
        let mut r: Vec<i64> = Vec::new();
        while r.len() < cols
            invariant
                1 <= leg <= draws.len(),
                draws[leg - 1].flips.len() == cols,
                values@ == Self::sampled(
                    self.bias_mode,
                    self.bias_fixed,
                    draws@[leg - 1].biases@,
                    cols as nat,
                ),
                values.len() == cols,
                forall|v: int| 0 <= v < cols ==> values[v] > i64::MIN,
                expected == self.biases_at(draws@, leg as nat, cols as nat),
                r.len() <= cols,
                forall|v: int|
                    0 <= v < r.len() ==> (#[trigger] r[v]) == expected[v] && r[v] > i64::MIN,
            decreases cols - r.len(),
        {
            let v: usize = r.len();
            let value: i64 = if draws[leg - 1].flips[v] {
                -values[v]
            } else {
                values[v]
            };
            r.push(value);
        }
        assert(r@ =~= expected);
        r
    }

    /// The variables that are biased in leg `leg`.
    fn mask_for_leg(&self, leg: usize, previous: &Vec<i64>) -> (r: Vec<bool>)
        requires
            self.bias_filter_threshold > i64::MIN,
            forall|v: int| 0 <= v < previous.len() ==> previous[v] > i64::MIN,
        ensures
            r@ == self.mask_at(leg as nat, previous@),
    {
        let ghost expected = self.mask_at(leg as nat, previous@);
        let threshold: i64 = magnitude(self.bias_filter_threshold);
        let filter: bool = match self.bias_apply_mode {
            BiasApplyMode::All => false,
            BiasApplyMode::Filter => true,
        };
        let mut r: Vec<bool> = Vec::new();
        while r.len() < previous.len()
            invariant
                threshold == abs(self.bias_filter_threshold as int),
                filter == (self.bias_apply_mode is Filter),
                forall|v: int| 0 <= v < previous.len() ==> previous[v] > i64::MIN,
                expected == self.mask_at(leg as nat, previous@),
                r.len() <= previous.len(),
                forall|v: int| 0 <= v < r.len() ==> (#[trigger] r[v]) == expected[v],
            decreases previous.len() - r.len(),
        {
            let v: usize = r.len();
            let here: bool = leg > 0 && (!filter || magnitude(previous[v]) <= threshold);
            r.push(here);
        }
        assert(r@ =~= expected);
        r
    }
}

/// `values` scaled by a share of the unit.
fn shrink(values: &Vec<i64>, factor: i64, one: i64) -> (r: Vec<i64>)
    requires
        0 <= factor <= one,
        1 <= one,
        forall|v: int| 0 <= v < values.len() ==> values[v] > i64::MIN,
    ensures
        r@ == shrunk(values@, factor as int, one as int),
        forall|v: int| 0 <= v < r.len() ==> r[v] > i64::MIN,
{
    let mut r: Vec<i64> = Vec::new();
    let mut v: usize = 0;
    while v < values.len()
        invariant
            0 <= factor <= one,
            1 <= one,
            forall|u: int| 0 <= u < values.len() ==> values[u] > i64::MIN,
            v <= values.len(),
            r.len() == v,
            forall|u: int|
                0 <= u < v ==> r[u] == shrunk(values@, factor as int, one as int)[u] && r[u]
                    > i64::MIN,
        decreases values.len() - v,
    {
        proof {
            lemma_product_bound(
                factor as int,
                values[v as int] as int,
                0x7fff_ffff_ffff_ffff,
                0x7fff_ffff_ffff_ffff,
            );
            lemma_shrunk_bound(factor as int, values[v as int] as int, one as int);
        }
        let product: i128 = (factor as i128) * (values[v] as i128);
        r.push(divide(product, one) as i64);
        v += 1;
    }
    assert(r@ =~= shrunk(values@, factor as int, one as int));
    r
}

/// A decoder in legs with values of their own for each variable.
#[derive(Clone, Debug)]
pub struct DisorderedBPDecoder {
    pub bp_decoder: MinSumBPDecoder,
    pub config: DisorderedBPDecoderConfig,
}

impl DisorderedBPDecoder {
    /// The parts fit each other.
    pub open spec fn wf(self) -> bool {
        &&& self.bp_decoder@.wf()
        &&& self.config.wf(self.bp_decoder@.config.one())
    }

    /// A disordered decoder for the code with check matrix `check_matrix`.
    pub fn new(
        check_matrix: SparseBitMatrix,
        min_sum_config: MinSumDecoderConfig,
        config: DisorderedBPDecoderConfig,
    ) -> (r: Self)
        requires
            check_matrix@.wf(),
            min_sum_config@.wf(check_matrix@.cols),
            config.wf(min_sum_config@.one()),
        ensures
            r.wf(),
            r.bp_decoder@ == BpModel::built(check_matrix@, config.inner(min_sum_config@)),
            r.config == config,
    {
        let ghost outer = min_sum_config@;
        let mut inner: MinSumDecoderConfig = min_sum_config;
        inner.max_iter = config.limit_of_legs();
        inner.alpha = Some(config.alpha_fixed);
        inner.gamma0 = Some(config.initial_gamma);
        inner.enable_variable_message_drop = false;
        inner.drop_llr_threshold = 0;
        assert(inner@ =~= config.inner(outer));
        DisorderedBPDecoder { bp_decoder: MinSumBPDecoder::new(check_matrix, inner), config }
    }

    /// Adds the biases of marked variables to their posteriors.
    pub fn apply_bias_to_posterior(&mut self, bias_values: &Vec<i64>, bias_mask: &Vec<bool>)
        requires
            old(self).wf(),
            bias_values.len() == old(self).bp_decoder@.cols(),
            bias_mask.len() == old(self).bp_decoder@.cols(),
        ensures
            final(self).wf(),
            final(self).config == old(self).config,
            final(self).bp_decoder@ == old(self).bp_decoder@.biased(bias_values@, bias_mask@),
    {
        let ghost d = self.bp_decoder@;
        let ghost expected = d.biased(bias_values@, bias_mask@).posterior;
        let cols: usize = self.bp_decoder.check_matrix.cols;
        let mut posterior: Vec<i64> = Vec::new();
        while posterior.len() < cols
            invariant
                self.wf(),
                self.bp_decoder@ == d,
                cols == d.cols(),
                bias_values.len() == cols,
                bias_mask.len() == cols,
                expected == d.biased(bias_values@, bias_mask@).posterior,
                posterior.len() <= cols,
                forall|v: int|
                    0 <= v < posterior.len() ==> (#[trigger] posterior[v]) == expected[v]
                        && posterior[v] > i64::MIN,
            decreases cols - posterior.len(),
        {
            let v: usize = posterior.len();
            let here: i64 = self.bp_decoder.posterior_ratios[v];
            let value: i64 = if bias_mask[v] {
                narrow((here as i128) + (bias_values[v] as i128), i64::MAX)
            } else {
                here
            };
            posterior.push(value);
        }
        assert(posterior@ =~= expected);
        self.bp_decoder.set_posterior_ratios(posterior);
        self.bp_decoder.recompute_hard_decision();
    }

    /// A leg of at most `iter_budget` iterations.
    fn decode_inner_leg(
        &mut self,
        detectors: &Vec<Bit>,
        iter_budget: usize,
        bias_values: &Vec<i64>,
        bias_mask: &Vec<bool>,
        apply_bias: bool,
        max_iter: usize,
    ) -> (r: DecodeResult)
        requires
            old(self).wf(),
            old(self).bp_decoder@.iteration == 0,
            detectors.len() == old(self).bp_decoder@.matrix.rows,
            bias_values.len() == old(self).bp_decoder@.cols(),
            bias_mask.len() == old(self).bp_decoder@.cols(),
            iter_budget > 0,
        ensures
            final(self).wf(),
            final(self).config == old(self).config,
            final(self).bp_decoder@.matrix == old(self).bp_decoder@.matrix,
            final(self).bp_decoder@.config == old(self).bp_decoder@.config,
            ({
                let bias = if apply_bias {
                    Some((bias_values@, bias_mask@))
                } else {
                    None
                };
                let last = old(self).bp_decoder@.disordered(
                    detectors@,
                    bias,
                    iter_budget as nat,
                );
                &&& final(self).bp_decoder@ == last
                &&& r@ == last.result(
                    last.converged(detectors@),
                    last.decoded_detectors(),
                    max_iter as nat,
                )
            }),
            r.iterations <= iter_budget,
            r.decoding.len() == old(self).bp_decoder@.cols(),
            r.posterior_ratios.len() == old(self).bp_decoder@.cols(),
            r.success ==> old(self).bp_decoder@.matrix.mul_mod2(r.decoding@) == detectors@,
    {
        let ghost d = self.bp_decoder@;
        let ghost bias = if apply_bias {
            Some((bias_values@, bias_mask@))
        } else {
            None
        };
        let ghost all = d.disordered(detectors@, bias, iter_budget as nat);
        let none: Vec<bool> = Vec::new();
        assert(none@ =~= Seq::empty());
        let mut success: bool = false;
        let mut decoded: Vec<Bit> = Vec::new();
        let mut i: usize = 0;
        while i < iter_budget && !success
            invariant
                self.wf(),
                self.config == old(self).config,
                self.bp_decoder@.matrix == d.matrix,
                self.bp_decoder@.config == d.config,
                detectors.len() == d.matrix.rows,
                bias_values.len() == d.cols(),
                bias_mask.len() == d.cols(),
                none@ == Seq::<bool>::empty(),
                bias == (if apply_bias {
                    Some((bias_values@, bias_mask@))
                } else {
                    None
                }),
                i <= iter_budget,
                self.bp_decoder@.iteration == i,
                i > 0 ==> decoded@ == self.bp_decoder@.decoded_detectors() && success
                    == self.bp_decoder@.converged(detectors@),
                i == 0 ==> !success,
                all == (if success {
                    self.bp_decoder@
                } else {
                    self.bp_decoder@.disordered(detectors@, bias, (iter_budget - i) as nat)
                }),
            decreases iter_budget - i + (if success {
                0int
            } else {
                1
            }),
        {
            self.bp_decoder.run_iteration(detectors, &none);
            if apply_bias {
                self.apply_bias_to_posterior(bias_values, bias_mask);
            }
            self.bp_decoder.current_iteration = self.bp_decoder.current_iteration + 1;
            decoded = self.bp_decoder.compute_decoded_detectors();
            success = self.bp_decoder.check_convergence(detectors, &decoded);
            i += 1;
        }
        self.bp_decoder.build_result(success, decoded, max_iter)
    }

    /// What is told of a leg.
    fn build_leg_trace(
        &self,
        result: &DecodeResult,
        alpha_values: &Vec<i64>,
        gamma_values: &Vec<i64>,
        bias_values: &Vec<i64>,
        bias_mask: &Vec<bool>,
    ) -> (r: DisorderedBPLegTrace)
        requires
            bias_values.len() == bias_mask.len(),
            forall|v: int| 0 <= v < bias_values.len() ==> bias_values[v] > i64::MIN,
        ensures
            r.success == result.success,
            r.iterations == result.iterations,
            r.negative_llr_count == negatives(result.posterior_ratios@),
            r.decoding@ == result.decoding@,
            r.posterior@ == result.posterior_ratios@,
            r.alpha_mean == mean(alpha_values@),
            r.gamma_mean == mean(gamma_values@),
            r.bias_mean == mean(marked(bias_values@, bias_mask@)),
            r.bias_applied_count == marked(bias_values@, bias_mask@).len(),
    {
        let mut count: usize = 0;
        let mut v: usize = 0;
        while v < result.posterior_ratios.len()
            invariant
                v <= result.posterior_ratios.len(),
                count <= v,
                count == negatives_below(result.posterior_ratios@, v as int),
            decreases result.posterior_ratios.len() - v,
        {
            if result.posterior_ratios[v] < 0 {
                count = count + 1;
            }
            v += 1;
        }
        let applied: Vec<i64> = marked_of(bias_values, bias_mask);
        DisorderedBPLegTrace {
            success: result.success,
            iterations: result.iterations,
            negative_llr_count: count,
            decoding: result.decoding.clone(),
            posterior: result.posterior_ratios.clone(),
            alpha_mean: mean_of(alpha_values),
            gamma_mean: mean_of(gamma_values),
            bias_mean: mean_of(&applied),
            bias_applied_count: applied.len(),
        }
    }

    /// Runs leg `leg`.
    fn run_leg(&mut self, detectors: &Vec<Bit>, draws: &Vec<DisorderedDraws>, leg: usize) -> (r: (
        DecodeResult,
        DisorderedBPLegTrace,
    ))
        requires
            old(self).wf(),
            old(self).config.supplied(draws@, old(self).bp_decoder@.cols()),
            detectors.len() == old(self).bp_decoder@.matrix.rows,
            leg < positive(old(self).config.maximum_leg),
        ensures
            final(self).wf(),
            final(self).config == old(self).config,
            final(self).bp_decoder@.matrix == old(self).bp_decoder@.matrix,
            final(self).bp_decoder@.config == old(self).bp_decoder@.config,
            ({
                let config = old(self).config;
                let d = old(self).bp_decoder@;
                let last = config.leg_start(draws@, d, leg as nat).disordered(
                    detectors@,
                    config.bias(draws@, d, leg as nat),
                    config.budget(leg as nat),
                );
                &&& final(self).bp_decoder@ == last
                &&& r.0@ == last.result(
                    last.converged(detectors@),
                    last.decoded_detectors(),
                    config.reported_limit(),
                )
                &&& config.told(
                    draws@,
                    leg as nat,
                    config.looked_back(d, leg as nat),
                    r.0@,
                    r.1,
                )
            }),
            r.0.iterations <= old(self).config.budget(leg as nat),
            r.0.decoding.len() == old(self).bp_decoder@.cols(),
            r.0.posterior_ratios.len() == old(self).bp_decoder@.cols(),
            r.0.success ==> old(self).bp_decoder@.matrix.mul_mod2(r.0.decoding@) == detectors@,
    {
        let ghost d = self.bp_decoder@;
        let ghost config = self.config;
        let cols: usize = self.bp_decoder.check_matrix.cols;
        let one: i64 = self.bp_decoder.config.unit();
        let iter_budget: usize = if leg == 0 {
            at_least_one(self.config.t_0)
        } else {
            at_least_one(self.config.iteration_per_leg)
        };
        let mut alphas: Vec<i64> = Vec::new();
        let mut gammas: Vec<i64> = Vec::new();
        let base: Vec<i64> = self.bp_decoder.config.log_prior_ratios.clone();
        let mut previous: Vec<i64> = Vec::new();
        let mut initial: Vec<i64> = Vec::new();
        if leg == 0 {
            alphas = vec![self.config.initial_alpha; cols];
            gammas = vec![self.config.initial_gamma; cols];
            previous = base.clone();
            initial = base.clone();
        } else {
            assert(config.supplies(draws@[leg - 1], d.cols()));
            alphas =
            sample_vector(
                self.config.alpha_mode,
                self.config.alpha_fixed,
                &draws[leg - 1].alphas,
                cols,
            );
            gammas =
            sample_vector(
                self.config.gamma_mode,
                self.config.gamma_fixed,
                &draws[leg - 1].gammas,
                cols,
            );
            previous = self.bp_decoder.posterior_ratios.clone();
            initial = shrink(&previous, self.config.carry_marginal_factor, one);
        }
        proof {
            assert(alphas@ =~= config.alphas_at(draws@, leg as nat, d.cols()));
            assert(gammas@ =~= config.gammas_at(draws@, leg as nat, d.cols()));
            assert(are_gains(gammas@, d.cols()));
        }
        let biases: Vec<i64> = self.config.sample_bias_for_leg(draws, leg, cols);
        let mask: Vec<bool> = self.config.mask_for_leg(leg, &previous);
        self.bp_decoder.current_iteration = 0;
        self.bp_decoder.set_variable_alphas(Some(alphas.clone()));
        self.bp_decoder.set_memory_strengths_fixed(gammas.clone());
        self.bp_decoder.set_log_prior_ratio_fixed(base);
        self.bp_decoder.set_posterior_ratios(initial);
        self.bp_decoder.initialize_check_to_variable();
        self.bp_decoder.initialize_variable_to_check();
        assert(self.bp_decoder@ =~= config.leg_start(draws@, d, leg as nat));
        let max_iter: usize = self.config.limit_of_legs();
        let result: DecodeResult = self.decode_inner_leg(
            detectors,
            iter_budget,
            &biases,
            &mask,
            leg > 0,
            max_iter,
        );
        let trace: DisorderedBPLegTrace = self.build_leg_trace(
            &result,
            &alphas,
            &gammas,
            &biases,
            &mask,
        );
        (result, trace)
    }

    /// Decodes a syndrome. `draws[l]` holds what was drawn for leg `l + 1`.
    pub fn decode_detailed(&mut self, detectors: &Vec<Bit>, draws: &Vec<DisorderedDraws>) -> (r:
        DecodeResult)
        requires
            old(self).wf(),
            old(self).config.supplied(draws@, old(self).bp_decoder@.cols()),
            detectors.len() == old(self).bp_decoder@.matrix.rows,
        ensures
            final(self).wf(),
            final(self).config == old(self).config,
            ({
                let d = old(self).bp_decoder@;
                let t = old(self).config.run(draws@, detectors@, d);
                &&& final(self).bp_decoder@ == (BpModel { alphas: None, ..t.last })
                &&& r@ == final_leg(t.legs)
                &&& r.extra matches BPExtraResult::DisorderedBPTrace(e)
                    && old(self).config.all_told(draws@, d.config.priors, t.legs, e@)
            }),
            final(self).bp_decoder@.matrix == old(self).bp_decoder@.matrix,
            final(self).bp_decoder@.config == old(self).bp_decoder@.config,
            r.decoding.len() == old(self).bp_decoder@.cols(),
            r.posterior_ratios.len() == old(self).bp_decoder@.cols(),
            r.success ==> old(self).bp_decoder@.matrix.mul_mod2(r.decoding@) == detectors@,
    {
        let ghost d = self.bp_decoder@;
        let ghost config = self.config;
        let ghost all = config.run(draws@, detectors@, d);
        let maximum_leg: usize = at_least_one(self.config.maximum_leg);
        let ghost mut t = DisorderedRun { legs: Seq::empty(), last: d };
        let mut traces: Vec<DisorderedBPLegTrace> = Vec::new();
        let (mut result, trace) = self.run_leg(detectors, draws, 0);
        traces.push(trace);
        let mut total: usize = result.iterations;
        proof {
            t = config.leg_added(draws@, detectors@, t, 0);
            assert(t.legs.drop_last() =~= Seq::empty());
            reveal_with_fuel(total_iterations, 2);
        }
        let mut leg: usize = 1;
        while leg < maximum_leg && !result.success
            invariant
                self.wf(),
                self.config == config,
                config.supplied(draws@, d.cols()),
                self.bp_decoder@.matrix == d.matrix,
                self.bp_decoder@.config == d.config,
                detectors.len() == d.matrix.rows,
                maximum_leg == positive(config.maximum_leg),
                1 <= leg <= maximum_leg,
                t.last == self.bp_decoder@,
                t.legs.len() == leg,
                t.legs.last().posterior == t.last.posterior,
                config.all_told(draws@, d.config.priors, t.legs, traces@),
                total == total_iterations(t.legs),
                total <= positive(config.t_0) + (leg - 1) * positive(config.iteration_per_leg),
                result@ == t.legs.last(),
                result.decoding.len() == d.cols(),
                result.posterior_ratios.len() == d.cols(),
                result.success ==> d.matrix.mul_mod2(result.decoding@) == detectors@,
                all == (if result.success {
                    t
                } else {
                    config.legs_from(draws@, detectors@, t, leg as nat)
                }),
            decreases maximum_leg - leg,
        {
            let ghost next = config.leg_added(draws@, detectors@, t, leg as nat);
            let (found, trace) = self.run_leg(detectors, draws, leg);
            traces.push(trace);
            result = found;
            proof {
                assert(next.legs.drop_last() =~= t.legs);
                assert(next.legs.last() == result@);
                let each = positive(config.iteration_per_leg);
                let legs = positive(config.maximum_leg);
                assert(leg * each == (leg - 1) * each + each) by (nonlinear_arith);
                assert(leg * each <= (legs - 1) * each) by (nonlinear_arith)
                    requires
                        leg <= legs - 1,
                        each >= 0,
                ;
                assert forall|l: int| 0 <= l < traces.len() implies config.told(
                    draws@,
                    l as nat,
                    if l == 0 {
                        d.config.priors
                    } else {
                        next.legs[l - 1].posterior
                    },
                    next.legs[l],
                    #[trigger] traces@[l],
                ) by {
                    if l < t.legs.len() {
                        assert(next.legs[l] == t.legs[l]);
                        if l > 0 {
                            assert(next.legs[l - 1] == t.legs[l - 1]);
                        }
                    } else {
                        assert(next.legs[l - 1] == t.legs[l - 1]);
                    }
                }
                t = next;
            }
            total = total + result.iterations;
            leg += 1;
        }
        self.bp_decoder.clear_variable_alphas();
        result.iterations = total;
        result.extra = BPExtraResult::DisorderedBPTrace(traces);
        assert(result@ =~= final_leg(t.legs));
        result
    }
}

/// A disordered decoder together with what was drawn for it.
#[derive(Clone, Debug)]
pub struct DrawnDisorderedDecoder {
    pub disordered: DisorderedBPDecoder,
    /// What was drawn for each decoding to come.
    pub supply: Vec<Vec<DisorderedDraws>>,
}

/// What such a decoder holds.
#[verifier::ext_equal]
pub struct DrawnDisorderedModel {
    pub config: DisorderedBPDecoderConfig,
    pub bp: BpModel,
    pub supply: Seq<Vec<DisorderedDraws>>,
}

impl DrawnDisorderedModel {
    /// The legs of decoding `det`.
    pub open spec fn run(self, det: Seq<Bit>) -> DisorderedRun {
        self.config.run(self.supply[0]@, det, self.bp)
    }
}

impl Decoder for DrawnDisorderedDecoder {
    type M = DrawnDisorderedModel;

    open spec fn model(&self) -> DrawnDisorderedModel {
        DrawnDisorderedModel {
            config: self.disordered.config,
            bp: self.disordered.bp_decoder@,
            supply: self.supply@,
        }
    }

    open spec fn ready(m: DrawnDisorderedModel) -> bool {
        &&& m.bp.wf()
        &&& m.config.wf(m.bp.config.one())
        &&& forall|k: int|
            0 <= k < m.supply.len() ==> m.config.supplied(
                (#[trigger] m.supply[k])@,
                m.bp.cols(),
            )
    }

    open spec fn code(m: DrawnDisorderedModel) -> MatrixModel {
        m.bp.matrix
    }

    open spec fn weights(m: DrawnDisorderedModel) -> Seq<i64> {
        m.bp.config.priors
    }

    open spec fn outcome(m: DrawnDisorderedModel, det: Seq<Bit>) -> ResultModel {
        final_leg(m.run(det).legs)
    }

    open spec fn noted(m: DrawnDisorderedModel, det: Seq<Bit>, extra: BPExtraResult) -> bool {
        extra matches BPExtraResult::DisorderedBPTrace(e) && m.config.all_told(
            m.supply[0]@,
            m.bp.config.priors,
            m.run(det).legs,
            e@,
        )
    }

    open spec fn next(m: DrawnDisorderedModel, det: Seq<Bit>) -> DrawnDisorderedModel {
        DrawnDisorderedModel {
            bp: BpModel { alphas: None, ..m.run(det).last },
            supply: m.supply.skip(1),
            ..m
        }
    }

    open spec fn lasts(m: DrawnDisorderedModel, n: nat) -> bool {
        m.supply.len() >= n
    }

    proof fn lemma_ready(m: DrawnDisorderedModel) {
    }

    proof fn lemma_lasts(m: DrawnDisorderedModel, det: Seq<Bit>, n: nat) {
    }

    fn can_decode(&self, n: usize) -> (r: bool) {
        self.supply.len() >= n
    }

    fn check_matrix(&self) -> (r: &SparseBitMatrix) {
        &self.disordered.bp_decoder.check_matrix
    }

    fn log_prior_ratios(&self) -> (r: Vec<i64>) {
        self.disordered.bp_decoder.config.log_prior_ratios.clone()
    }

    fn decode_detailed(&mut self, detectors: &Vec<Bit>) -> (r: DecodeResult) {
        let ghost m = self.model();
        let own: Vec<DisorderedDraws> = self.supply.remove(0);
        let r = self.disordered.decode_detailed(detectors, &own);
        assert(self.model() =~= Self::next(m, detectors@));
        assert(Self::noted(m, detectors@, r.extra));
        r
    }
}

} // verus!
