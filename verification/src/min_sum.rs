//! Min-sum belief propagation on the bipartite graph of a check matrix.

use vstd::prelude::*;

use crate::arith::{
    abs, blend, blend_ratios, bound, bound_value_magnitude, divide, lemma_fold_push,
    lemma_parity_remove, lemma_product_bound, lemma_remove_push, lemma_sum_bound, lemma_sum_push,
    magnitude, min_abs, mix, mix_ratios, narrow, neg_parity, sum, trunc_div, GAIN_LIMIT,
};
use crate::decoder::{
    after, consistent, decoding_quality, get_decoding_quality, same_bits, zero_bits, BPExtraResult,
    DecodeResult, Decoder, ResultModel,
};
use crate::matrix::{in_slice, lemma_slice_unique, slice_of, Bit, MatrixModel, SparseBitMatrix};

verus! {

/// The parameters of a min-sum decoder.
///
/// Ratios and gains are fixed-point numbers whose unit is `data_scale_value`, or one if it
/// is absent. A prior ratio of `i64::MAX` is infinite.
#[derive(Debug)]
pub struct MinSumDecoderConfig {
    /// The log-likelihood ratio of each variable before decoding.
    pub log_prior_ratios: Vec<i64>,
    /// The number of iterations after which decoding gives up.
    pub max_iter: usize,
    /// The damping of check messages: one if absent or negative, the schedule if zero.
    pub alpha: Option<i64>,
    /// The damping by iteration, used where `alpha` is zero. The last value stays.
    pub alpha_schedule: Vec<i64>,
    /// The initial memory strength; memory is off if absent.
    pub gamma0: Option<i64>,
    /// The unit of the fixed-point numbers.
    pub data_scale_value: Option<i64>,
    /// The largest magnitude of a ratio.
    pub max_data_value: Option<i64>,
    /// Whether a variable may drop its messages.
    pub enable_variable_message_drop: bool,
    /// The magnitude of the posterior from which a variable may drop its messages.
    pub drop_llr_threshold: i64,
    /// Whether memory mixes ratios that are cut to whole units, as integer arithmetic does
    /// to avoid overflow. Otherwise their fractions count.
    pub whole_units: bool,
}

/// What a configuration holds.
#[verifier::ext_equal]
pub struct ConfigModel {
    pub priors: Seq<i64>,
    pub max_iter: usize,
    pub alpha: Option<i64>,
    pub alpha_schedule: Seq<i64>,
    pub gamma0: Option<i64>,
    pub scale: Option<i64>,
    pub max_data: Option<i64>,
    pub drop_enabled: bool,
    pub drop_threshold: i64,
    pub whole_units: bool,
}

impl View for MinSumDecoderConfig {
    type V = ConfigModel;

    open spec fn view(&self) -> ConfigModel {
        ConfigModel {
            priors: self.log_prior_ratios@,
            max_iter: self.max_iter,
            alpha: self.alpha,
            alpha_schedule: self.alpha_schedule@,
            gamma0: self.gamma0,
            scale: self.data_scale_value,
            max_data: self.max_data_value,
            drop_enabled: self.enable_variable_message_drop,
            drop_threshold: self.drop_llr_threshold,
            whole_units: self.whole_units,
        }
    }
}

/// Whether `x` can be a memory strength.
pub open spec fn is_gain(x: i64) -> bool {
    -GAIN_LIMIT <= x <= GAIN_LIMIT
}

impl ConfigModel {
    /// The parameters are in range, with one prior for each of `cols` variables.
    pub open spec fn wf(self, cols: nat) -> bool {
        &&& self.priors.len() == cols
        &&& forall|v: int| 0 <= v < cols ==> self.priors[v] > i64::MIN
        &&& self.scale matches Some(s) ==> 1 <= s <= GAIN_LIMIT
        &&& self.max_data matches Some(m) ==> m >= 0
        &&& self.gamma0 matches Some(g) ==> is_gain(g)
        &&& self.drop_threshold > i64::MIN
    }

    /// The unit of the fixed-point numbers.
    pub open spec fn one(self) -> int {
        match self.scale {
            Some(s) => s as int,
            None => 1,
        }
    }

    /// The largest magnitude of a ratio.
    pub open spec fn limit(self) -> int {
        match self.max_data {
            Some(m) => m as int,
            None => i64::MAX as int,
        }
    }

    /// Two ratios mixed by a memory strength.
    pub open spec fn mixed(self, prior: int, previous: int, gamma: int) -> int {
        if self.whole_units {
            mix(prior, previous, gamma, self.one())
        } else {
            blend(prior, previous, gamma, self.one())
        }
    }

    /// The damping of check messages in the iteration after `iteration` complete ones.
    pub open spec fn alpha_at(self, iteration: nat) -> int {
        match self.alpha {
            Some(a) => if a == 0 {
                if self.alpha_schedule.len() == 0 {
                    self.one()
                } else if iteration < self.alpha_schedule.len() {
                    self.alpha_schedule[iteration as int] as int
                } else {
                    self.alpha_schedule.last() as int
                }
            } else if a < 0 {
                self.one()
            } else {
                a as int
            },
            None => self.one(),
        }
    }
}

impl MinSumDecoderConfig {
    /// The unit of the fixed-point numbers.
    pub fn unit(&self) -> (r: i64)
        requires
            self@.wf(self@.priors.len()),
        ensures
            r == self@.one(),
            1 <= r <= GAIN_LIMIT,
    {
        match self.data_scale_value {
            Some(s) => s,
            None => 1,
        }
    }

    /// The largest magnitude of a ratio.
    pub fn limit(&self) -> (r: i64)
        requires
            self@.wf(self@.priors.len()),
        ensures
            r == self@.limit(),
            r >= 0,
    {
        match self.max_data_value {
            Some(m) => m,
            None => i64::MAX,
        }
    }

    /// Sets the number of iterations after which decoding gives up.
    pub fn set_max_iter(&mut self, iterations: usize)
        ensures
            final(self)@ == (ConfigModel { max_iter: iterations, ..old(self)@ }),
    {
        self.max_iter = iterations;
    }

    /// Mixes two ratios by a memory strength.
    pub fn mix_by_memory(&self, prior: i64, previous: i64, gamma: i64) -> (r: i128)
        requires
            self@.wf(self@.priors.len()),
            is_gain(gamma),
        ensures
            r == self@.mixed(prior as int, previous as int, gamma as int),
            abs(r as int) <= 0x8000_0000_0000_0000 * 0x6000_0000_0000_0000,
    {
        if self.whole_units {
            mix_ratios(prior, previous, gamma, self.unit())
        } else {
            blend_ratios(prior, previous, gamma, self.unit())
        }
    }

    /// Bounds the ratios to a signed fixed-point format with `int_bits` integer bits.
    pub fn set_fixed(&mut self, int_bits: u32)
        requires
            1 <= int_bits <= 63,
        ensures
            final(self)@ == (ConfigModel {
                max_data: Some(vstd::arithmetic::power2::pow2((int_bits - 1) as nat) as i64),
                ..old(self)@
            }),
            vstd::arithmetic::power2::pow2((int_bits - 1) as nat) <= i64::MAX,
    {
        let n: u32 = int_bits - 1;
        let p: u64 = 1u64 << n;
        proof {
            vstd::arithmetic::power2::lemma_pow2_strictly_increases(n as nat, 63);
            vstd::arithmetic::power2::lemma2_to64_rest();
            vstd::bits::lemma_u64_shl_is_mul(1, n as u64);
            assert(1u64 << n == 1u64 << (n as u64)) by (bit_vector)
                requires
                    n <= 62,
            ;
        }
        self.max_data_value = Some(p as i64);
    }
}

impl Default for MinSumDecoderConfig {
    fn default() -> (r: Self)
        ensures
            r@ == (ConfigModel {
                priors: Seq::empty(),
                max_iter: 200,
                alpha: None,
                alpha_schedule: Seq::empty(),
                gamma0: None,
                scale: None,
                max_data: None,
                drop_enabled: false,
                drop_threshold: 0,
                whole_units: false,
            }),
    {
        MinSumDecoderConfig {
            log_prior_ratios: Vec::new(),
            max_iter: 200,
            alpha: None,
            alpha_schedule: Vec::new(),
            gamma0: None,
            data_scale_value: None,
            max_data_value: None,
            enable_variable_message_drop: false,
            drop_llr_threshold: 0,
            whole_units: false,
        }
    }
}

impl Clone for MinSumDecoderConfig {
    fn clone(&self) -> (r: Self)
        ensures
            r@ == self@,
    {
        MinSumDecoderConfig {
            log_prior_ratios: self.log_prior_ratios.clone(),
            max_iter: self.max_iter,
            alpha: self.alpha,
            alpha_schedule: self.alpha_schedule.clone(),
            gamma0: self.gamma0,
            data_scale_value: self.data_scale_value,
            max_data_value: self.max_data_value,
            enable_variable_message_drop: self.enable_variable_message_drop,
            drop_llr_threshold: self.drop_llr_threshold,
            whole_units: self.whole_units,
        }
    }
}

/// What a decoder holds. Messages to variables are kept in column order, messages to
/// checks in row order.
#[verifier::ext_equal]
pub struct BpModel {
    pub matrix: MatrixModel,
    pub config: ConfigModel,
    pub priors: Seq<i64>,
    pub memory: Seq<i64>,
    pub alphas: Option<Seq<i64>>,
    pub c2v: Seq<i64>,
    pub v2c: Seq<i64>,
    pub posterior: Seq<i64>,
    pub decoding: Seq<Bit>,
    pub iteration: nat,
}

/// The coins of iteration `t`; none are thrown past the end.
pub open spec fn coins_at(coins: Seq<Vec<bool>>, t: int) -> Seq<bool> {
    if 0 <= t < coins.len() {
        coins[t]@
    } else {
        Seq::empty()
    }
}

/// The hard decision on a list of ratios: an error where the ratio is not positive.
pub open spec fn hard_decision(ratios: Seq<i64>) -> Seq<Bit> {
    Seq::new(
        ratios.len(),
        |v: int| if ratios[v] <= 0 { 1 as Bit } else { 0 as Bit },
    )
}

/// `values` with each magnitude at most `limit`.
pub open spec fn bound_all(values: Seq<i64>, limit: int) -> Seq<i64> {
    Seq::new(values.len(), |i: int| bound(values[i] as int, limit) as i64)
}

impl BpModel {
    /// A new decoder: silent messages, and with memory the posteriors at the priors.
    pub open spec fn built(matrix: MatrixModel, config: ConfigModel) -> BpModel {
        let priors = bound_all(config.priors, config.limit());
        BpModel {
            matrix,
            config,
            priors,
            memory: Seq::new(matrix.cols, |v: int| 0i64),
            alphas: None,
            c2v: Seq::new(matrix.nnz(), |f: int| 0i64),
            v2c: Seq::new(matrix.nnz(), |e: int| 0i64),
            posterior: if config.gamma0 is Some {
                priors
            } else {
                Seq::new(matrix.cols, |v: int| 0i64)
            },
            decoding: zero_bits(matrix.cols),
            iteration: 0,
        }
    }

    /// The number of variables.
    pub open spec fn cols(self) -> nat {
        self.matrix.cols
    }

    /// All parts fit each other and no ratio is the least `i64`.
    pub open spec fn wf(self) -> bool {
        &&& self.matrix.wf()
        &&& self.config.wf(self.cols())
        &&& self.priors.len() == self.cols()
        &&& forall|v: int| 0 <= v < self.priors.len() ==> self.priors[v] > i64::MIN
        &&& self.memory.len() == self.cols()
        &&& forall|v: int| 0 <= v < self.memory.len() ==> is_gain(#[trigger] self.memory[v])
        &&& self.alphas matches Some(a) ==> a.len() == self.cols()
        &&& self.c2v.len() == self.matrix.nnz()
        &&& forall|f: int| 0 <= f < self.c2v.len() ==> self.c2v[f] > i64::MIN
        &&& self.v2c.len() == self.matrix.nnz()
        &&& forall|e: int| 0 <= e < self.v2c.len() ==> self.v2c[e] > i64::MIN
        &&& self.posterior.len() == self.cols()
        &&& forall|v: int| 0 <= v < self.posterior.len() ==> self.posterior[v] > i64::MIN
        &&& self.decoding.len() == self.cols()
        &&& self.iteration <= usize::MAX
    }

    /// The damping of the message of a check to variable `v`.
    pub open spec fn gain(self, v: int) -> int {
        match self.alphas {
            Some(a) => a[v] as int,
            None => self.config.alpha_at(self.iteration),
        }
    }

    /// The message of check `c` to the variable of its entry `k`: the least magnitude that
    /// the other variables send, damped, with the sign that makes the parity of the check
    /// agree with its detector.
    pub open spec fn check_message(self, det: Seq<Bit>, c: int, k: int) -> i64 {
        let others = slice_of(self.matrix.row_ptr, self.v2c, c).remove(k);
        let v = self.matrix.row(c)[k] as int;
        let damped = self.gain(v) * min_abs(others);
        let signed = if (det[c] == 1) != neg_parity(others) {
            -damped
        } else {
            damped
        };
        bound(trunc_div(signed, self.config.one()), i64::MAX as int) as i64
    }

    /// The message of the check update at place `f` in column order.
    pub open spec fn check_message_at(self, det: Seq<Bit>, f: int) -> i64 {
        let c = self.matrix.col_idx[f] as int;
        self.check_message(det, c, self.matrix.csc_to_csr[f] - self.matrix.row_ptr[c])
    }

    /// The checks below `n` have sent new messages.
    pub open spec fn checks_updated(self, det: Seq<Bit>, n: int) -> BpModel {
        BpModel {
            c2v: Seq::new(
                self.matrix.nnz(),
                |f: int|
                    if self.matrix.col_idx[f] < n {
                        self.check_message_at(det, f)
                    } else {
                        self.c2v[f]
                    },
            ),
            ..self
        }
    }

    /// Check `c` has sent new messages.
    pub open spec fn check_updated(self, det: Seq<Bit>, c: int) -> BpModel {
        BpModel {
            c2v: Seq::new(
                self.matrix.nnz(),
                |f: int|
                    if self.matrix.col_idx[f] == c {
                        self.check_message_at(det, f)
                    } else {
                        self.c2v[f]
                    },
            ),
            ..self
        }
    }

    /// Every check has sent new messages.
    pub open spec fn check_step(self, det: Seq<Bit>) -> BpModel {
        self.checks_updated(det, self.matrix.rows as int)
    }

    /// The prior of variable `v`, mixed with its posterior by its memory strength.
    pub open spec fn variable_prior(self, v: int) -> int {
        if self.config.gamma0 is Some && self.priors[v] != i64::MAX {
            self.config.mixed(
                self.priors[v] as int,
                self.posterior[v] as int,
                self.memory[v] as int,
            )
        } else {
            self.priors[v] as int
        }
    }

    /// The messages that variable `v` receives.
    pub open spec fn incoming(self, v: int) -> Seq<i64> {
        slice_of(self.matrix.col_ptr, self.c2v, v)
    }

    /// The prior of variable `v` and all messages to it.
    pub open spec fn total(self, v: int) -> int {
        self.variable_prior(v) + sum(self.incoming(v))
    }

    /// Whether variable `v`, whose posterior is `posterior`, drops its messages, given one
    /// coin for each variable.
    pub open spec fn drops(self, coins: Seq<bool>, v: int, posterior: int) -> bool {
        &&& self.config.drop_enabled
        &&& abs(posterior) >= abs(self.config.drop_threshold as int)
        &&& v < coins.len()
        &&& coins[v]
    }

    /// The message at place `e` in row order, where its variable has the prior `prior` and
    /// the posterior `posterior`: the prior and what all other checks sent.
    pub open spec fn variable_message_at(
        self,
        coins: Seq<bool>,
        e: int,
        prior: int,
        posterior: int,
    ) -> i64 {
        let v = self.matrix.row_idx[e] as int;
        let own = self.c2v[self.matrix.csr_to_csc[e] as int];
        if self.drops(coins, v, posterior) {
            0
        } else {
            bound(prior + sum(self.incoming(v)) - own, self.config.limit()) as i64
        }
    }

    /// The variables below `n` have sent new messages and have new posteriors.
    pub open spec fn variables_updated(self, coins: Seq<bool>, n: int) -> BpModel {
        BpModel {
            v2c: Seq::new(
                self.matrix.nnz(),
                |e: int|
                    {
                        let v = self.matrix.row_idx[e] as int;
                        if v < n {
                            self.variable_message_at(
                                coins,
                                e,
                                self.variable_prior(v),
                                self.total(v),
                            )
                        } else {
                            self.v2c[e]
                        }
                    },
            ),
            posterior: Seq::new(
                self.cols(),
                |v: int|
                    if v < n {
                        bound(self.total(v), self.config.limit()) as i64
                    } else {
                        self.posterior[v]
                    },
            ),
            ..self
        }
    }

    /// Every variable has sent new messages and has a new posterior.
    pub open spec fn variable_step(self, coins: Seq<bool>) -> BpModel {
        self.variables_updated(coins, self.cols() as int)
    }

    /// Variable `v` has sent new messages: nothing if it drops them, else `prior` and what
    /// all other checks sent.
    pub open spec fn messages_sent(self, v: int, prior: int, drop: bool) -> BpModel {
        BpModel {
            v2c: Seq::new(
                self.matrix.nnz(),
                |e: int|
                    if self.matrix.row_idx[e] == v {
                        if drop {
                            0i64
                        } else {
                            let own = self.c2v[self.matrix.csr_to_csc[e] as int];
                            bound(prior + sum(self.incoming(v)) - own, self.config.limit()) as i64
                        }
                    } else {
                        self.v2c[e]
                    },
            ),
            ..self
        }
    }

    /// Variable `v` has sent new messages and has a new posterior.
    pub open spec fn variable_updated(self, coins: Seq<bool>, v: int) -> BpModel {
        let sent = self.messages_sent(
            v,
            self.variable_prior(v),
            self.drops(coins, v, self.total(v)),
        );
        BpModel {
            posterior: self.posterior.update(
                v,
                bound(self.total(v), self.config.limit()) as i64,
            ),
            ..sent
        }
    }

    /// Variable `v` has sent new messages and everything is in range; a variable without
    /// checks does nothing.
    pub open spec fn variable_resent(self, coins: Seq<bool>, v: int) -> BpModel {
        if 0 <= v < self.cols() && self.matrix.col(v).len() > 0 {
            self.variable_updated(coins, v).bounded()
        } else {
            self
        }
    }

    /// All messages to checks and all posteriors are in range.
    pub open spec fn bounded(self) -> BpModel {
        BpModel {
            v2c: bound_all(self.v2c, self.config.limit()),
            posterior: bound_all(self.posterior, self.config.limit()),
            ..self
        }
    }

    /// The posterior of variable `v` without memory.
    pub open spec fn plain_marginal(self, v: int) -> int {
        bound(self.priors[v] + sum(self.incoming(v)), i64::MAX as int)
    }

    /// The posterior of variable `v` without memory, mixed with its last posterior by its
    /// memory strength.
    pub open spec fn blended_marginal(self, v: int) -> int {
        let marginal = self.plain_marginal(v);
        if self.config.gamma0 is Some && marginal != i64::MAX {
            self.config.mixed(marginal, self.posterior[v] as int, self.memory[v] as int)
        } else {
            marginal
        }
    }

    /// The variables below `n` have sent messages without memory and have new posteriors
    /// with memory.
    pub open spec fn variables_blended(self, coins: Seq<bool>, n: int) -> BpModel {
        BpModel {
            v2c: Seq::new(
                self.matrix.nnz(),
                |e: int|
                    {
                        let v = self.matrix.row_idx[e] as int;
                        if v < n {
                            self.variable_message_at(
                                coins,
                                e,
                                self.priors[v] as int,
                                self.blended_marginal(v),
                            )
                        } else {
                            self.v2c[e]
                        }
                    },
            ),
            posterior: Seq::new(
                self.cols(),
                |v: int|
                    if v < n {
                        bound(self.blended_marginal(v), self.config.limit()) as i64
                    } else {
                        self.posterior[v]
                    },
            ),
            ..self
        }
    }

    /// The variable half of an iteration in which memory acts on the posteriors only.
    pub open spec fn blended_step(self, coins: Seq<bool>) -> BpModel {
        self.variables_blended(coins, self.cols() as int).decided()
    }

    /// The decoding is the hard decision on the posteriors.
    pub open spec fn decided(self) -> BpModel {
        BpModel { decoding: hard_decision(self.posterior), ..self }
    }

    /// One iteration: checks, variables, hard decision.
    pub open spec fn iterate(self, det: Seq<Bit>, coins: Seq<bool>) -> BpModel {
        self.check_step(det).variable_step(coins).decided()
    }

    /// The iteration count moved on by one.
    pub open spec fn counted(self) -> BpModel {
        BpModel { iteration: self.iteration + 1, ..self }
    }

    /// The syndrome of the decoding.
    pub open spec fn decoded_detectors(self) -> Seq<Bit> {
        self.matrix.mul_mod2(self.decoding)
    }

    /// The posteriors are `posterior` and each variable sends every check its posterior less
    /// what that check sent.
    pub open spec fn rebuilt(self, posterior: Seq<i64>) -> BpModel {
        let d = BpModel { posterior, ..self };
        let e = BpModel {
            v2c: Seq::new(
                self.matrix.nnz(),
                |e: int|
                    bound(
                        posterior[self.matrix.row_idx[e] as int]
                            - self.c2v[self.matrix.csr_to_csc[e] as int],
                        self.config.limit(),
                    ) as i64,
            ),
            posterior: bound_all(posterior, self.config.limit()),
            ..d
        };
        e.decided()
    }

    /// The posterior of variable `v` that its prior, mixed with `previous` by `gamma`, the
    /// present messages and `beta` times the earlier sum `earlier` would give.
    pub open spec fn predicted(
        self,
        v: int,
        previous: int,
        gamma: int,
        beta: int,
        earlier: int,
    ) -> int {
        let prior = blend(self.config.priors[v] as int, previous, gamma, self.config.one());
        let carried = trunc_div(beta * earlier, self.config.one());
        bound(prior + sum(self.incoming(v)) + carried, i64::MAX as int)
    }

    /// The decoding explains the detectors.
    pub open spec fn converged(self, det: Seq<Bit>) -> bool {
        self.decoded_detectors() == det
    }

    /// Every check message is zero.
    pub open spec fn checks_silent(self) -> BpModel {
        BpModel { c2v: Seq::new(self.matrix.nnz(), |f: int| 0i64), ..self }
    }

    /// Every variable sends its prior.
    pub open spec fn variables_at_prior(self) -> BpModel {
        BpModel {
            v2c: Seq::new(
                self.matrix.nnz(),
                |e: int| self.priors[self.matrix.row_idx[e] as int],
            ),
            ..self
        }
    }

    /// Every variable has the initial memory strength.
    pub open spec fn memory_at_start(self) -> BpModel {
        let gamma = match self.config.gamma0 {
            Some(g) => g,
            None => 0i64,
        };
        BpModel { memory: Seq::new(self.cols(), |v: int| gamma), ..self }
    }

    /// Ready to decode: no iteration done, messages and memory at their start. With memory
    /// the posteriors start at the priors.
    pub open spec fn initialized(self) -> BpModel {
        let d = BpModel { iteration: 0, ..self };
        let e = d.memory_at_start().checks_silent().variables_at_prior();
        if self.config.gamma0 is Some {
            BpModel { posterior: self.priors, ..e }
        } else {
            e
        }
    }

    /// Iterating until the decoding explains the detectors, `n` times at most. The coins of
    /// iteration `t` are `coins[t]`.
    pub open spec fn run(self, det: Seq<Bit>, coins: Seq<Vec<bool>>, n: nat) -> BpModel
        decreases n,
    {
        if n == 0 {
            self
        } else {
            let next = self.iterate(det, coins_at(coins, self.iteration as int)).counted();
            if next.converged(det) {
                next
            } else {
                next.run(det, coins, (n - 1) as nat)
            }
        }
    }

    /// The result of a decoder that stopped in this state.
    pub open spec fn result(
        self,
        success: bool,
        decoded_detectors: Seq<Bit>,
        max_iter: nat,
    ) -> ResultModel {
        ResultModel {
            decoding: self.decoding,
            decoded_detectors,
            posterior: self.posterior,
            success,
            quality: if success {
                decoding_quality(self.config.priors, self.decoding)
            } else {
                i128::MAX as int
            },
            iterations: self.iteration,
            max_iter,
            gap: None,
        }
    }

    /// The result of decoding: the state in which iterating stopped, which is a success if
    /// it explains the detectors.
    pub open spec fn decoded(self, det: Seq<Bit>, coins: Seq<Vec<bool>>) -> ResultModel {
        let n = self.config.max_iter as nat;
        let last = self.initialized().run(det, coins, n);
        last.result(last.converged(det), last.decoded_detectors(), n)
    }
}

/// A min-sum belief propagation decoder.
#[derive(Debug)]
pub struct MinSumBPDecoder {
    pub check_matrix: SparseBitMatrix,
    pub config: MinSumDecoderConfig,
    pub log_prior_ratios: Vec<i64>,
    pub check_to_variable: Vec<i64>,
    pub variable_to_check: Vec<i64>,
    pub posterior_ratios: Vec<i64>,
    pub memory_strengths: Vec<i64>,
    pub variable_alphas: Option<Vec<i64>>,
    pub decoding: Vec<Bit>,
    pub current_iteration: usize,
}

impl Clone for MinSumBPDecoder {
    fn clone(&self) -> (r: Self)
        ensures
            r@ == self@,
    {
        let r = MinSumBPDecoder {
            check_matrix: self.check_matrix.clone(),
            config: self.config.clone(),
            log_prior_ratios: self.log_prior_ratios.clone(),
            check_to_variable: self.check_to_variable.clone(),
            variable_to_check: self.variable_to_check.clone(),
            posterior_ratios: self.posterior_ratios.clone(),
            memory_strengths: self.memory_strengths.clone(),
            variable_alphas: match &self.variable_alphas {
                Some(alphas) => Some(alphas.clone()),
                None => None,
            },
            decoding: self.decoding.clone(),
            current_iteration: self.current_iteration,
        };
        assert(r@ =~= self@);
        r
    }
}

impl View for MinSumBPDecoder {
    type V = BpModel;

    open spec fn view(&self) -> BpModel {
        BpModel {
            matrix: self.check_matrix@,
            config: self.config@,
            priors: self.log_prior_ratios@,
            memory: self.memory_strengths@,
            alphas: match self.variable_alphas {
                Some(a) => Some(a@),
                None => None,
            },
            c2v: self.check_to_variable@,
            v2c: self.variable_to_check@,
            posterior: self.posterior_ratios@,
            decoding: self.decoding@,
            iteration: self.current_iteration as nat,
        }
    }
}

impl MinSumBPDecoder {
    /// The damping of check messages in the coming iteration.
    fn alpha(&self) -> (r: i64)
        requires
            self@.wf(),
        ensures
            r == self@.config.alpha_at(self@.iteration),
    {
        match self.config.alpha {
            Some(a) => {
                if a == 0 {
                    let n: usize = self.config.alpha_schedule.len();
                    if n == 0 {
                        self.config.unit()
                    } else if self.current_iteration < n {
                        self.config.alpha_schedule[self.current_iteration]
                    } else {
                        self.config.alpha_schedule[n - 1]
                    }
                } else if a < 0 {
                    self.config.unit()
                } else {
                    a
                }
            },
            None => self.config.unit(),
        }
    }

    /// The damping of messages to variable `v`, where the common damping is `alpha`.
    fn gain(&self, alpha: i64, v: usize) -> (r: i64)
        requires
            self@.wf(),
            v < self@.cols(),
            alpha == self@.config.alpha_at(self@.iteration),
        ensures
            r == self@.gain(v as int),
    {
        match &self.variable_alphas {
            Some(a) => a[v],
            None => alpha,
        }
    }

    /// The messages of check `check_idx` to its variables.
    pub fn run_check_to_variable_update_for_check(&mut self, detectors: &Vec<Bit>, check_idx: usize)
        requires
            old(self)@.wf(),
            detectors.len() == old(self)@.matrix.rows,
        ensures
            final(self)@.wf(),
            final(self)@ == old(self)@.check_updated(detectors@, check_idx as int),
    {
        let ghost d = self@;
        let ghost m = self@.matrix;
        let c: usize = check_idx;
        if c >= self.check_matrix.rows {
            assert(d.check_updated(detectors@, c as int) =~= d);
            return ;
        }
        let start: usize = self.check_matrix.row_ptr[c];
        let end: usize = self.check_matrix.row_ptr[c + 1];
        assert(m.row_ptr[c as int] <= m.row_ptr[c + 1] <= m.row_ptr[m.rows as int]);
        let ghost row = slice_of(m.row_ptr, d.v2c, c as int);
        let flip: bool = detectors[c] == 1;
        let mut parity: bool = false;
        let mut min_message: i64 = i64::MAX;
        let mut second_min_message: i64 = i64::MAX;
        let mut min_ind: usize = start;
        let mut e: usize = start;
        while e < end
            invariant
                self@ == d,
                d.wf(),
                m == d.matrix,
                c < m.rows,
                start == m.row_ptr[c as int],
                end == m.row_ptr[c + 1],
                start <= e <= end <= m.nnz(),
                row == slice_of(m.row_ptr, d.v2c, c as int),
                parity == neg_parity(row.take(e - start)),
                min_message == min_abs(row.take(e - start)),
                0 <= min_message <= second_min_message,
                e == start ==> min_message == i64::MAX,
                e > start ==> start <= min_ind < e,
                forall|k: int|
                    0 <= k < e - start ==> #[trigger] min_abs(row.take(e - start).remove(k)) == (
                    if start + k == min_ind {
                        second_min_message as int
                    } else {
                        min_message as int
                    }),
            decreases end - e,
        {
            let msg: i64 = self.variable_to_check[e];
            let size: i64 = magnitude(msg);
            proof {
                let p = row.take(e - start);
                assert(row.take(e + 1 - start) =~= p.push(msg));
                lemma_fold_push(p, msg);
                assert forall|k: int| 0 <= k < e + 1 - start implies #[trigger] min_abs(
                    row.take(e + 1 - start).remove(k),
                ) == (if k == e - start {
                    min_abs(p)
                } else if abs(msg as int) <= min_abs(p.remove(k)) {
                    abs(msg as int)
                } else {
                    min_abs(p.remove(k))
                }) by {
                    lemma_remove_push(p, msg, k);
                    if k < p.len() {
                        lemma_fold_push(p.remove(k), msg);
                    }
                }
            }
            if msg < 0 {
                parity = !parity;
            }
            if size <= min_message {
                second_min_message = min_message;
                min_message = size;
                min_ind = e;
            } else if size <= second_min_message {
                second_min_message = size;
            }
            e += 1;
        }
        assert(row.take(end - start) =~= row);
        let alpha: i64 = self.alpha();
        let one: i64 = self.config.unit();
        let mut e: usize = start;
        while e < end
            invariant
                d.wf(),
                m == d.matrix,
                detectors.len() == m.rows,
                c < m.rows,
                start == m.row_ptr[c as int],
                end == m.row_ptr[c + 1],
                start <= e <= end <= m.nnz(),
                row == slice_of(m.row_ptr, d.v2c, c as int),
                parity == neg_parity(row),
                flip == (detectors[c as int] == 1),
                0 <= min_message,
                0 <= second_min_message,
                alpha == d.config.alpha_at(d.iteration),
                one == d.config.one(),
                one >= 1,
                forall|k: int|
                    0 <= k < end - start ==> #[trigger] min_abs(row.remove(k)) == (if start + k
                        == min_ind {
                        second_min_message as int
                    } else {
                        min_message as int
                    }),
                self@ == (BpModel { c2v: self@.c2v, ..d }),
                self@.c2v.len() == m.nnz(),
                forall|f: int|
                    0 <= f < m.nnz() ==> #[trigger] self@.c2v[f] == (if m.col_idx[f] == c
                        && m.csc_to_csr[f] < e {
                        d.check_message_at(detectors@, f)
                    } else {
                        d.c2v[f]
                    }),
            decreases end - e,
        {
            let ghost before = self@.c2v;
            let msg: i64 = self.variable_to_check[e];
            let v: usize = self.check_matrix.row_idx[e];
            let least: i64 = if e != min_ind {
                min_message
            } else {
                second_min_message
            };
            let gain: i64 = self.gain(alpha, v);
            proof {
                lemma_product_bound(
                    gain as int,
                    least as int,
                    0x8000_0000_0000_0000,
                    0x8000_0000_0000_0000,
                );
                lemma_parity_remove(row, e - start);
            }
            let damped: i128 = (gain as i128) * (least as i128);
            let odd: bool = parity != (msg < 0);
            let signed: i128 = if flip != odd {
                -damped
            } else {
                damped
            };
            let out: i64 = narrow(divide(signed, one), i64::MAX);
            let f: usize = self.check_matrix.csr_to_csc[e];
            self.check_to_variable.set(f, out);
            proof {
                assert(in_slice(m.row_ptr, c as int, e as int));
                assert(m.csc_to_csr[f as int] == e);
                lemma_slice_unique(
                    m.rows,
                    m.cols,
                    m.row_ptr,
                    m.row_idx,
                    c as int,
                    m.col_idx[f as int] as int,
                    e as int,
                );
                assert(m.row(c as int)[e - start] == v);
                assert(min_abs(row.remove(e - start)) == least);
                assert(out == d.check_message(detectors@, c as int, e - start));
                assert(out == d.check_message_at(detectors@, f as int));
                assert forall|g: int|
                    0 <= g < m.nnz() implies #[trigger] self@.c2v[g] == (if m.col_idx[g]
                    == c && m.csc_to_csr[g] < e + 1 {
                    d.check_message_at(detectors@, g)
                } else {
                    d.c2v[g]
                }) by {
                    if g != f {
                        assert(before[g] == self@.c2v[g]);
                        assert(m.csr_to_csc[m.csc_to_csr[g] as int] == g);
                    }
                }
            }
            e += 1;
        }
        proof {
            assert forall|f: int| 0 <= f < m.nnz() implies #[trigger] self@.c2v[f]
                == d.check_updated(detectors@, c as int).c2v[f] by {
                if m.col_idx[f] == c {
                    assert(in_slice(m.row_ptr, m.col_idx[f] as int, m.csc_to_csr[f] as int));
                }
            }
            assert(self@ =~= d.check_updated(detectors@, c as int));
        }
    }

    /// New messages of every check.
    pub fn run_check_to_variable_update(&mut self, detectors: &Vec<Bit>)
        requires
            old(self)@.wf(),
            detectors.len() == old(self)@.matrix.rows,
        ensures
            final(self)@.wf(),
            final(self)@ == old(self)@.check_step(detectors@),
    {
        let ghost d = self@;
        let rows: usize = self.check_matrix.rows;
        assert(d.checks_updated(detectors@, 0) =~= d);
        let mut c: usize = 0;
        while c < rows
            invariant
                d.wf(),
                self@.wf(),
                rows == d.matrix.rows,
                detectors.len() == rows,
                c <= rows,
                self@ == d.checks_updated(detectors@, c as int),
            decreases rows - c,
        {
            let ghost here = self@;
            self.run_check_to_variable_update_for_check(detectors, c);
            proof {
                assert forall|f: int|
                    0 <= f < d.matrix.nnz() implies here.check_message_at(detectors@, f)
                    == #[trigger] d.check_message_at(detectors@, f) by {}
                assert(self@ =~= d.checks_updated(detectors@, c + 1));
            }
            c += 1;
        }
    }

    /// The prior of variable `v`, mixed with its posterior by its memory strength.
    fn compute_variable_prior(&self, v: usize) -> (r: i128)
        requires
            self@.wf(),
            v < self@.cols(),
        ensures
            r == self@.variable_prior(v as int),
            abs(r as int) <= 0x8000_0000_0000_0000 * 0x6000_0000_0000_0000,
    {
        let prior: i64 = self.log_prior_ratios[v];
        if self.config.gamma0.is_some() {
            if prior == i64::MAX {
                return prior as i128;
            }
            assert(is_gain(self@.memory[v as int]));
            return self.config.mix_by_memory(
                prior,
                self.posterior_ratios[v],
                self.memory_strengths[v],
            );
        }
        prior as i128
    }

    /// The sum of the messages that variable `v` receives.
    fn incoming_sum(&self, v: usize) -> (r: i128)
        requires
            self@.wf(),
            v < self@.cols(),
        ensures
            r == sum(self@.incoming(v as int)),
            abs(r as int) <= 0x7fff_ffff_ffff_ffff * 0x8000_0000_0000_0000,
    {
        let start: usize = self.check_matrix.col_ptr[v];
        let end: usize = self.check_matrix.col_ptr[v + 1];
        let ghost m = self@.matrix;
        assert(m.col_ptr[v as int] <= m.col_ptr[v + 1] <= m.col_ptr[m.cols as int]);
        let ghost col = self@.incoming(v as int);
        let mut acc: i128 = 0;
        let mut f: usize = start;
        while f < end
            invariant
                self@.wf(),
                m == self@.matrix,
                v < m.cols,
                start == m.col_ptr[v as int],
                end == m.col_ptr[v + 1],
                start <= f <= end <= m.nnz(),
                col == self@.incoming(v as int),
                acc == sum(col.take(f - start)),
            decreases end - f,
        {
            let x: i64 = self.check_to_variable[f];
            proof {
                let p = col.take(f - start);
                assert(col.take(f + 1 - start) =~= p.push(x));
                lemma_sum_push(p, x);
                lemma_sum_bound(p);
                assert(p.len() * 0x8000_0000_0000_0000 <= 0x7fff_ffff_ffff_ffff
                    * 0x8000_0000_0000_0000) by (nonlinear_arith)
                    requires
                        p.len() <= 0x7fff_ffff_ffff_ffff,
                ;
            }
            acc = acc + (x as i128);
            f += 1;
        }
        proof {
            assert(col.take(end - start) =~= col);
            lemma_sum_bound(col);
            assert(col.len() * 0x8000_0000_0000_0000 <= 0x7fff_ffff_ffff_ffff
                * 0x8000_0000_0000_0000) by (nonlinear_arith)
                requires
                    col.len() <= 0x7fff_ffff_ffff_ffff,
            ;
        }
        acc
    }

    /// Sends the messages of variable `v`, where `sum_in` is what it receives in all.
    fn send_messages(&mut self, v: usize, prior: i128, sum_in: i128, drop: bool)
        requires
            old(self)@.wf(),
            v < old(self)@.cols(),
            abs(prior as int) <= 0x8000_0000_0000_0000 * 0x6000_0000_0000_0000,
            abs(sum_in as int) <= 0x8000_0000_0000_0000 * 0x8000_0000_0000_0000,
            sum_in == sum(old(self)@.incoming(v as int)),
        ensures
            final(self)@.wf(),
            final(self)@ == old(self)@.messages_sent(v as int, prior as int, drop),
    {
        let ghost d = self@;
        let ghost m = self@.matrix;
        let start: usize = self.check_matrix.col_ptr[v];
        let end: usize = self.check_matrix.col_ptr[v + 1];
        let limit: i64 = self.config.limit();
        assert(m.col_ptr[v as int] <= m.col_ptr[v + 1] <= m.col_ptr[m.cols as int]);
        let mut f: usize = start;
        while f < end
            invariant
                d.wf(),
                m == d.matrix,
                v < m.cols,
                start == m.col_ptr[v as int],
                end == m.col_ptr[v + 1],
                start <= f <= end <= m.nnz(),
                limit == d.config.limit(),
                limit >= 0,
                abs(prior as int) <= 0x8000_0000_0000_0000 * 0x6000_0000_0000_0000,
                abs(sum_in as int) <= 0x8000_0000_0000_0000 * 0x8000_0000_0000_0000,
                sum_in == sum(d.incoming(v as int)),
                self@ == (BpModel { v2c: self@.v2c, ..d }),
                self@.v2c.len() == m.nnz(),
                forall|e: int|
                    0 <= e < m.nnz() ==> #[trigger] self@.v2c[e] == (if m.row_idx[e] == v
                        && m.csr_to_csc[e] < f {
                        d.messages_sent(v as int, prior as int, drop).v2c[e]
                    } else {
                        d.v2c[e]
                    }),
            decreases end - f,
        {
            let ghost before = self@.v2c;
            let own: i64 = self.check_to_variable[f];
            let e: usize = self.check_matrix.csc_to_csr[f];
            let out: i64 = if drop {
                0
            } else {
                narrow(prior + sum_in - (own as i128), limit)
            };
            self.variable_to_check.set(e, out);
            proof {
                assert(m.csr_to_csc[e as int] == f);
                assert(in_slice(m.col_ptr, v as int, f as int));
                lemma_slice_unique(
                    m.cols,
                    m.rows,
                    m.col_ptr,
                    m.col_idx,
                    v as int,
                    m.row_idx[e as int] as int,
                    f as int,
                );
                assert forall|g: int|
                    0 <= g < m.nnz() implies #[trigger] self@.v2c[g] == (if m.row_idx[g]
                    == v && m.csr_to_csc[g] < f + 1 {
                    d.messages_sent(v as int, prior as int, drop).v2c[g]
                } else {
                    d.v2c[g]
                }) by {
                    if g != e {
                        assert(before[g] == self@.v2c[g]);
                        assert(m.csc_to_csr[m.csr_to_csc[g] as int] == g);
                    }
                }
            }
            f += 1;
        }
        proof {
            assert forall|e: int| 0 <= e < m.nnz() implies #[trigger] self@.v2c[e]
                == d.messages_sent(v as int, prior as int, drop).v2c[e] by {
                if m.row_idx[e] == v {
                    assert(in_slice(m.col_ptr, m.row_idx[e] as int, m.csr_to_csc[e] as int));
                }
            }
            assert(self@ =~= d.messages_sent(v as int, prior as int, drop));
        }
    }

    /// Whether variable `v` drops its messages.
    fn should_drop_variable_messages(&self, coins: &Vec<bool>, v: usize, posterior: i128) -> (r: bool)
        requires
            self@.wf(),
            posterior > i128::MIN,
        ensures
            r == self@.drops(coins@, v as int, posterior as int),
    {
        if !self.config.enable_variable_message_drop {
            return false;
        }
        let size: i128 = if posterior < 0 {
            -posterior
        } else {
            posterior
        };
        if size < magnitude(self.config.drop_llr_threshold) as i128 {
            return false;
        }
        v < coins.len() && coins[v]
    }

    /// New messages and a new posterior of variable `v`.
    fn update_variable(&mut self, coins: &Vec<bool>, v: usize)
        requires
            old(self)@.wf(),
            v < old(self)@.cols(),
        ensures
            final(self)@.wf(),
            final(self)@ == old(self)@.variable_updated(coins@, v as int),
    {
        let ghost d = self@;
        let prior: i128 = self.compute_variable_prior(v);
        let sum_in: i128 = self.incoming_sum(v);
        let total: i128 = prior + sum_in;
        let drop: bool = self.should_drop_variable_messages(coins, v, total);
        self.send_messages(v, prior, sum_in, drop);
        let posterior: i64 = narrow(total, self.config.limit());
        self.posterior_ratios.set(v, posterior);
        assert(self@ =~= d.variable_updated(coins@, v as int));
    }

    /// New messages and new posteriors of every variable.
    fn compute_variable_to_check(&mut self, coins: &Vec<bool>)
        requires
            old(self)@.wf(),
        ensures
            final(self)@.wf(),
            final(self)@ == old(self)@.variable_step(coins@),
    {
        let ghost d = self@;
        let cols: usize = self.check_matrix.cols;
        assert(d.variables_updated(coins@, 0) =~= d);
        let mut v: usize = 0;
        while v < cols
            invariant
                d.wf(),
                self@.wf(),
                cols == d.cols(),
                v <= cols,
                self@ == d.variables_updated(coins@, v as int),
            decreases cols - v,
        {
            let ghost here = self@;
            self.update_variable(coins, v);
            proof {
                assert(here.incoming(v as int) == d.incoming(v as int));
                assert(here.variable_prior(v as int) == d.variable_prior(v as int));
                assert forall|e: int| 0 <= e < d.matrix.nnz() implies #[trigger] self@.v2c[e]
                    == d.variables_updated(coins@, v + 1).v2c[e] by {}
                assert forall|u: int| 0 <= u < d.cols() implies #[trigger] self@.posterior[u]
                    == d.variables_updated(coins@, v + 1).posterior[u] by {}
                assert(self@ =~= d.variables_updated(coins@, v + 1));
            }
            v += 1;
        }
    }

    /// Decides every bit by its posterior.
    pub fn recompute_hard_decision(&mut self)
        requires
            old(self)@.wf(),
        ensures
            final(self)@.wf(),
            final(self)@ == old(self)@.decided(),
    {
        let ghost d = self@;
        let cols: usize = self.check_matrix.cols;
        let mut v: usize = 0;
        while v < cols
            invariant
                d.wf(),
                cols == d.cols(),
                v <= cols,
                self@ == (BpModel { decoding: self@.decoding, ..d }),
                self@.decoding.len() == cols,
                forall|u: int|
                    0 <= u < v ==> self@.decoding[u] == hard_decision(d.posterior)[u],
            decreases cols - v,
        {
            let bit: Bit = if self.posterior_ratios[v] <= 0 {
                1
            } else {
                0
            };
            self.decoding.set(v, bit);
            v += 1;
        }
        assert(self@ =~= d.decided());
    }

    /// One iteration of belief propagation. `coins` holds one draw for each variable, which
    /// counts only where messages may be dropped.
    pub fn run_iteration(&mut self, detectors: &Vec<Bit>, coins: &Vec<bool>)
        requires
            old(self)@.wf(),
            detectors.len() == old(self)@.matrix.rows,
        ensures
            final(self)@.wf(),
            final(self)@ == old(self)@.iterate(detectors@, coins@),
    {
        self.run_check_to_variable_update(detectors);
        self.compute_variable_to_check(coins);
        self.recompute_hard_decision();
    }

    /// A decoder for the code with check matrix `check_matrix`.
    pub fn new(check_matrix: SparseBitMatrix, config: MinSumDecoderConfig) -> (r: Self)
        requires
            check_matrix@.wf(),
            config@.wf(check_matrix@.cols),
        ensures
            r@.wf(),
            r@ == BpModel::built(check_matrix@, config@),
    {
        let cols: usize = check_matrix.cols;
        let nnz: usize = check_matrix.row_idx.len();
        let limit: i64 = config.limit();
        let log_prior_ratios: Vec<i64> = bound_values(&config.log_prior_ratios, limit);
        let posterior_ratios: Vec<i64> = if config.gamma0.is_some() {
            log_prior_ratios.clone()
        } else {
            vec![0; cols]
        };
        let r = MinSumBPDecoder {
            check_matrix,
            config,
            log_prior_ratios,
            check_to_variable: vec![0; nnz],
            variable_to_check: vec![0; nnz],
            posterior_ratios,
            memory_strengths: vec![0; cols],
            variable_alphas: None,
            decoding: vec![0; cols],
            current_iteration: 0,
        };
        proof {
            assert(r@.memory =~= Seq::new(r@.cols(), |v: int| 0i64));
            assert(r@.c2v =~= Seq::new(r@.matrix.nnz(), |v: int| 0i64));
            assert(r@.v2c =~= Seq::new(r@.matrix.nnz(), |v: int| 0i64));
            assert(r@.decoding =~= zero_bits(r@.cols()));
            if r@.config.gamma0 is None {
                assert(r@.posterior =~= Seq::new(r@.cols(), |v: int| 0i64));
            }
            assert(r@ =~= BpModel::built(r@.matrix, r@.config));
        }
        r
    }

    /// Sets every check message to zero.
    pub fn initialize_check_to_variable(&mut self)
        requires
            old(self)@.wf(),
        ensures
            final(self)@.wf(),
            final(self)@ == old(self)@.checks_silent(),
    {
        let ghost d = self@;
        self.check_to_variable = vec![0; self.check_matrix.row_idx.len()];
        assert(self@ =~= d.checks_silent());
    }

    /// Sets every message to a check to the prior of its variable.
    pub fn initialize_variable_to_check(&mut self)
        requires
            old(self)@.wf(),
        ensures
            final(self)@.wf(),
            final(self)@ == old(self)@.variables_at_prior(),
    {
        let ghost d = self@;
        let nnz: usize = self.check_matrix.row_idx.len();
        let mut e: usize = 0;
        while e < nnz
            invariant
                d.wf(),
                nnz == d.matrix.nnz(),
                e <= nnz,
                self@ == (BpModel { v2c: self@.v2c, ..d }),
                self@.v2c.len() == nnz,
                forall|k: int| 0 <= k < e ==> self@.v2c[k] == d.variables_at_prior().v2c[k],
            decreases nnz - e,
        {
            let v: usize = self.check_matrix.row_idx[e];
            self.variable_to_check.set(e, self.log_prior_ratios[v]);
            e += 1;
        }
        assert(self@ =~= d.variables_at_prior());
    }

    /// Sets every memory strength to the initial one.
    pub fn initialize_memory_strengths(&mut self)
        requires
            old(self)@.wf(),
        ensures
            final(self)@.wf(),
            final(self)@ == old(self)@.memory_at_start(),
    {
        let ghost d = self@;
        let gamma: i64 = match self.config.gamma0 {
            Some(g) => g,
            None => 0,
        };
        self.memory_strengths = vec![gamma; self.check_matrix.cols];
        assert(self@ =~= d.memory_at_start());
    }

    /// Sets every posterior to its prior.
    pub fn set_posterior_ratios_to_priors(&mut self)
        requires
            old(self)@.wf(),
        ensures
            final(self)@.wf(),
            final(self)@ == (BpModel { posterior: old(self)@.priors, ..old(self)@ }),
    {
        let ghost d = self@;
        self.posterior_ratios = self.log_prior_ratios.clone();
        assert(self@ =~= (BpModel { posterior: d.priors, ..d }));
    }

    /// Makes ready to decode.
    pub fn initialize_decoder(&mut self)
        requires
            old(self)@.wf(),
        ensures
            final(self)@.wf(),
            final(self)@ == old(self)@.initialized(),
    {
        self.current_iteration = 0;
        self.initialize_memory_strengths();
        self.initialize_check_to_variable();
        self.initialize_variable_to_check();
        if self.config.gamma0.is_some() {
            self.set_posterior_ratios_to_priors();
        }
    }

    /// The syndrome of the decoding.
    pub fn compute_decoded_detectors(&self) -> (r: Vec<Bit>)
        requires
            self@.wf(),
        ensures
            r@ == self@.decoded_detectors(),
    {
        self.check_matrix.mul_mod2(&self.decoding)
    }

    /// Whether the syndrome of the decoding is the one to be explained.
    pub fn check_convergence(&self, detectors: &Vec<Bit>, decoded_detectors: &Vec<Bit>) -> (r: bool)
        ensures
            r == (detectors@ == decoded_detectors@),
    {
        same_bits(detectors, decoded_detectors)
    }

    /// The weight of an error estimate.
    pub fn get_decoding_quality(&self, errors: &Vec<Bit>) -> (r: i128)
        requires
            self@.wf(),
            errors.len() <= self@.cols(),
        ensures
            r == decoding_quality(self@.config.priors, errors@),
    {
        get_decoding_quality(&self.config.log_prior_ratios, errors)
    }

    /// The result of stopping here.
    pub fn build_result(
        &self,
        success: bool,
        decoded_detectors: Vec<Bit>,
        max_iter: usize,
    ) -> (r: DecodeResult)
        requires
            self@.wf(),
        ensures
            r@ == self@.result(success, decoded_detectors@, max_iter as nat),
            r.extra is NoExtra,
    {
        let quality: i128 = if success {
            self.get_decoding_quality(&self.decoding)
        } else {
            i128::MAX
        };
        let r = DecodeResult {
            decoding: self.decoding.clone(),
            decoded_detectors,
            posterior_ratios: self.posterior_ratios.clone(),
            success,
            decoding_quality: quality,
            iterations: self.current_iteration,
            max_iter,
            logical_gap: None,
            extra: BPExtraResult::NoExtra,
        };
        assert(r@ =~= self@.result(success, decoded_detectors@, max_iter as nat));
        r
    }

    /// Decodes a syndrome, without any messages dropped.
    pub fn decode_detailed(&mut self, detectors: &Vec<Bit>) -> (r: DecodeResult)
        requires
            old(self)@.wf(),
            detectors.len() == old(self)@.matrix.rows,
        ensures
            final(self)@.wf(),
            final(self)@ == old(self)@.initialized().run(
                detectors@,
                Seq::empty(),
                old(self)@.config.max_iter as nat,
            ),
            r@ == old(self)@.decoded(detectors@, Seq::empty()),
            r.success ==> old(self)@.matrix.mul_mod2(r.decoding@) == detectors@,
            r.extra is NoExtra,
    {
        let coins: Vec<Vec<bool>> = Vec::new();
        assert(coins@ =~= Seq::empty());
        self.decode_detailed_with_coins(detectors, &coins)
    }

    /// Decodes a syndrome. `coins[t]` holds the draws of iteration `t`, one for each
    /// variable, which count only where messages may be dropped.
    pub fn decode_detailed_with_coins(
        &mut self,
        detectors: &Vec<Bit>,
        coins: &Vec<Vec<bool>>,
    ) -> (r: DecodeResult)
        requires
            old(self)@.wf(),
            detectors.len() == old(self)@.matrix.rows,
        ensures
            final(self)@.wf(),
            final(self)@ == old(self)@.initialized().run(
                detectors@,
                coins@,
                old(self)@.config.max_iter as nat,
            ),
            r@ == old(self)@.decoded(detectors@, coins@),
            r.success ==> old(self)@.matrix.mul_mod2(r.decoding@) == detectors@,
            r.extra is NoExtra,
    {
        let ghost d = self@;
        self.initialize_decoder();
        let max_iter: usize = self.config.max_iter;
        let ghost all = self@.run(detectors@, coins@, max_iter as nat);
        let none: Vec<bool> = Vec::new();
        let mut success: bool = false;
        let mut decoded_detectors: Vec<Bit> = self.compute_decoded_detectors();
        let mut i: usize = 0;
        while i < max_iter && !success
            invariant
                self@.wf(),
                detectors.len() == self@.matrix.rows,
                self@.matrix == d.matrix,
                self@.iteration == i,
                i <= max_iter,
                none.len() == 0,
                decoded_detectors@ == self@.decoded_detectors(),
                i == 0 ==> !success,
                i > 0 ==> success == self@.converged(detectors@),
                all == (if success {
                    self@
                } else {
                    self@.run(detectors@, coins@, (max_iter - i) as nat)
                }),
            decreases max_iter - i,
        {
            if i < coins.len() {
                self.run_iteration(detectors, &coins[i]);
            } else {
                assert(none@ =~= Seq::empty());
                self.run_iteration(detectors, &none);
            }
            self.current_iteration = self.current_iteration + 1;
            decoded_detectors = self.compute_decoded_detectors();
            success = self.check_convergence(detectors, &decoded_detectors);
            i += 1;
        }
        if max_iter == 0 {
            success = self.check_convergence(detectors, &decoded_detectors);
        }
        self.build_result(success, decoded_detectors, max_iter)
    }

    /// Decodes a syndrome.
    pub fn decode(&mut self, detectors: &Vec<Bit>) -> (r: Vec<Bit>)
        requires
            old(self)@.wf(),
            detectors.len() == old(self)@.matrix.rows,
        ensures
            final(self)@.wf(),
            r@ == old(self)@.decoded(detectors@, Seq::empty()).decoding,
    {
        self.decode_detailed(detectors).decoding
    }
}

impl MinSumBPDecoder {
    /// New messages and posteriors of every variable, and the hard decision.
    pub fn run_variable_to_check_update(&mut self, coins: &Vec<bool>)
        requires
            old(self)@.wf(),
        ensures
            final(self)@.wf(),
            final(self)@ == old(self)@.variable_step(coins@).decided(),
    {
        self.compute_variable_to_check(coins);
        self.recompute_hard_decision();
    }

    /// Brings all messages to checks and all posteriors into range.
    fn bound_magnitudes(&mut self)
        requires
            old(self)@.wf(),
        ensures
            final(self)@.wf(),
            final(self)@ == old(self)@.bounded(),
    {
        let ghost d = self@;
        let limit: i64 = self.config.limit();
        self.variable_to_check = bound_values(&self.variable_to_check, limit);
        self.posterior_ratios = bound_values(&self.posterior_ratios, limit);
        assert(self@ =~= d.bounded());
    }

    /// New messages and a new posterior of one variable. A variable without checks, or out
    /// of range, is left alone.
    pub fn run_variable_to_check_update_for_variable(&mut self, coins: &Vec<bool>, variable_idx: usize)
        requires
            old(self)@.wf(),
        ensures
            final(self)@.wf(),
            final(self)@ == old(self)@.variable_resent(coins@, variable_idx as int),
    {
        let v: usize = variable_idx;
        if v >= self.check_matrix.cols {
            return ;
        }
        proof {
            let m = self@.matrix;
            assert(m.col_ptr[v as int] <= m.col_ptr[v + 1] <= m.col_ptr[m.cols as int]);
        }
        if self.check_matrix.col_ptr[v] == self.check_matrix.col_ptr[v + 1] {
            return ;
        }
        self.update_variable(coins, v);
        self.bound_magnitudes();
    }

    /// New messages without memory and new posteriors with memory of every variable, and
    /// the hard decision.
    pub fn run_lrbp_variable_to_check_update(&mut self, coins: &Vec<bool>)
        requires
            old(self)@.wf(),
        ensures
            final(self)@.wf(),
            final(self)@ == old(self)@.blended_step(coins@),
    {
        let ghost d = self@;
        let cols: usize = self.check_matrix.cols;
        assert(d.variables_blended(coins@, 0) =~= d);
        let mut v: usize = 0;
        while v < cols
            invariant
                d.wf(),
                self@.wf(),
                cols == d.cols(),
                v <= cols,
                self@ == d.variables_blended(coins@, v as int),
            decreases cols - v,
        {
            let ghost here = self@;
            let prior: i128 = self.log_prior_ratios[v] as i128;
            let sum_in: i128 = self.incoming_sum(v);
            let marginal: i64 = narrow(prior + sum_in, i64::MAX);
            assert(is_gain(self@.memory[v as int]));
            let blended: i128 = if self.config.gamma0.is_some() && marginal != i64::MAX {
                self.config.mix_by_memory(
                    marginal,
                    self.posterior_ratios[v],
                    self.memory_strengths[v],
                )
            } else {
                marginal as i128
            };
            let drop: bool = self.should_drop_variable_messages(coins, v, blended);
            self.send_messages(v, prior, sum_in, drop);
            let posterior: i64 = narrow(blended, self.config.limit());
            self.posterior_ratios.set(v, posterior);
            proof {
                assert(here.incoming(v as int) == d.incoming(v as int));
                assert(here.blended_marginal(v as int) == d.blended_marginal(v as int));
                assert forall|e: int| 0 <= e < d.matrix.nnz() implies #[trigger] self@.v2c[e]
                    == d.variables_blended(coins@, v + 1).v2c[e] by {}
                assert forall|u: int| 0 <= u < d.cols() implies #[trigger] self@.posterior[u]
                    == d.variables_blended(coins@, v + 1).posterior[u] by {}
                assert(self@ =~= d.variables_blended(coins@, v + 1));
            }
            v += 1;
        }
        self.recompute_hard_decision();
    }

    /// Takes `posterior` as the posteriors and rebuilds the messages to checks from them.
    pub fn set_posterior_and_rebuild_variable_to_check(&mut self, posterior: Vec<i64>)
        requires
            old(self)@.wf(),
            posterior.len() == old(self)@.cols(),
            forall|v: int| 0 <= v < posterior.len() ==> posterior[v] > i64::MIN,
        ensures
            final(self)@.wf(),
            final(self)@ == old(self)@.rebuilt(posterior@),
    {
        let ghost d = self@;
        let limit: i64 = self.config.limit();
        let nnz: usize = self.check_matrix.row_idx.len();
        let mut e: usize = 0;
        while e < nnz
            invariant
                d.wf(),
                nnz == d.matrix.nnz(),
                limit == d.config.limit(),
                limit >= 0,
                posterior.len() == d.cols(),
                e <= nnz,
                self@ == (BpModel { v2c: self@.v2c, ..d }),
                self@.v2c.len() == nnz,
                forall|k: int| 0 <= k < e ==> self@.v2c[k] == d.rebuilt(posterior@).v2c[k],
            decreases nnz - e,
        {
            let v: usize = self.check_matrix.row_idx[e];
            let f: usize = self.check_matrix.csr_to_csc[e];
            let own: i64 = self.check_to_variable[f];
            let out: i64 = narrow((posterior[v] as i128) - (own as i128), limit);
            self.variable_to_check.set(e, out);
            e += 1;
        }
        self.posterior_ratios = bound_values(&posterior, limit);
        self.recompute_hard_decision();
        assert(self@ =~= d.rebuilt(posterior@));
    }

    /// The sums of the messages that the variables receive, brought into range.
    pub fn sum_check_to_variable_by_variable(&self) -> (r: Vec<i64>)
        requires
            self@.wf(),
        ensures
            r@ == Seq::new(
                self@.cols(),
                |v: int| bound(sum(self@.incoming(v)), i64::MAX as int) as i64,
            ),
    {
        let mut r: Vec<i64> = Vec::new();
        let mut v: usize = 0;
        while v < self.check_matrix.cols
            invariant
                self@.wf(),
                v <= self@.cols(),
                r.len() == v,
                forall|u: int|
                    0 <= u < v ==> r[u] == bound(sum(self@.incoming(u)), i64::MAX as int),
            decreases self.check_matrix.cols - v,
        {
            r.push(narrow(self.incoming_sum(v), i64::MAX));
            v += 1;
        }
        assert(r@ =~= Seq::new(
            self@.cols(),
            |v: int| bound(sum(self@.incoming(v)), i64::MAX as int) as i64,
        ));
        r
    }

    /// The posteriors that the present messages would give with other previous posteriors
    /// and memory strengths, and with `beta` times an earlier sum of messages on top.
    pub fn predict_posterior_from_previous_and_memory(
        &self,
        previous_posterior: &Vec<i64>,
        memory_strengths: &Vec<i64>,
        previous_check_message_sum: &Option<Vec<i64>>,
        previous_check_message_beta: i64,
    ) -> (r: Vec<i64>)
        requires
            self@.wf(),
            previous_posterior.len() == self@.cols(),
            memory_strengths.len() == self@.cols(),
            forall|v: int| 0 <= v < self@.cols() ==> is_gain(#[trigger] memory_strengths[v]),
            is_gain(previous_check_message_beta),
            previous_check_message_sum matches Some(s) ==> s.len() == self@.cols(),
        ensures
            r@ == Seq::new(
                self@.cols(),
                |v: int|
                    self@.predicted(
                        v,
                        previous_posterior[v] as int,
                        memory_strengths[v] as int,
                        previous_check_message_beta as int,
                        match previous_check_message_sum {
                            Some(s) => s[v] as int,
                            None => 0,
                        },
                    ) as i64,
            ),
    {
        let one: i64 = self.config.unit();
        let mut r: Vec<i64> = Vec::new();
        let ghost out = Seq::new(
            self@.cols(),
            |v: int|
                self@.predicted(
                    v,
                    previous_posterior[v] as int,
                    memory_strengths[v] as int,
                    previous_check_message_beta as int,
                    match previous_check_message_sum {
                        Some(s) => s[v] as int,
                        None => 0,
                    },
                ) as i64,
        );
        let mut v: usize = 0;
        while v < self.check_matrix.cols
            invariant
                self@.wf(),
                v <= self@.cols(),
                r.len() == v,
                one == self@.config.one(),
                1 <= one <= GAIN_LIMIT,
                previous_posterior.len() == self@.cols(),
                memory_strengths.len() == self@.cols(),
                forall|u: int| 0 <= u < self@.cols() ==> is_gain(#[trigger] memory_strengths[u]),
                is_gain(previous_check_message_beta),
                previous_check_message_sum matches Some(s) ==> s.len() == self@.cols(),
                out == Seq::new(
                    self@.cols(),
                    |v: int|
                        self@.predicted(
                            v,
                            previous_posterior[v] as int,
                            memory_strengths[v] as int,
                            previous_check_message_beta as int,
                            match previous_check_message_sum {
                                Some(s) => s[v] as int,
                                None => 0,
                            },
                        ) as i64,
                ),
                forall|u: int| 0 <= u < v ==> r[u] == out[u],
            decreases self.check_matrix.cols - v,
        {
            assert(is_gain(memory_strengths[v as int]));
            let prior: i128 = blend_ratios(
                self.config.log_prior_ratios[v],
                previous_posterior[v],
                memory_strengths[v],
                one,
            );
            let earlier: i64 = match previous_check_message_sum {
                Some(s) => s[v],
                None => 0,
            };
            proof {
                lemma_product_bound(
                    previous_check_message_beta as int,
                    earlier as int,
                    0x2000_0000_0000_0000,
                    0x8000_0000_0000_0000,
                );
            }
            let product: i128 = (previous_check_message_beta as i128) * (earlier as i128);
            let carried: i128 = divide(product, one);
            r.push(narrow(prior + self.incoming_sum(v) + carried, i64::MAX));
            assert(r[v as int] == out[v as int]);
            v += 1;
        }
        assert(r@ =~= out);
        r
    }

    /// Sets the priors, given in whole units.
    pub fn set_log_prior_ratio(&mut self, log_prior_ratios: &Vec<i64>)
        requires
            old(self)@.wf(),
            log_prior_ratios.len() == old(self)@.cols(),
        ensures
            final(self)@.wf(),
            final(self)@ == (BpModel {
                priors: scaled(log_prior_ratios@, old(self)@.config.one(), i64::MAX as int),
                ..old(self)@
            }),
    {
        let ghost d = self@;
        self.log_prior_ratios = scale_values(log_prior_ratios, self.config.unit(), i64::MAX);
        assert(self@ =~= (BpModel {
            priors: scaled(log_prior_ratios@, d.config.one(), i64::MAX as int),
            ..d
        }));
    }

    /// Sets the priors, given as fixed-point numbers.
    pub fn set_log_prior_ratio_fixed(&mut self, log_prior_ratios: Vec<i64>)
        requires
            old(self)@.wf(),
            log_prior_ratios.len() == old(self)@.cols(),
            forall|v: int| 0 <= v < log_prior_ratios.len() ==> log_prior_ratios[v] > i64::MIN,
        ensures
            final(self)@.wf(),
            final(self)@ == (BpModel { priors: log_prior_ratios@, ..old(self)@ }),
    {
        self.log_prior_ratios = log_prior_ratios;
    }

    /// Sets the posteriors, given as fixed-point numbers.
    pub fn set_posterior_ratios(&mut self, posterior_ratios: Vec<i64>)
        requires
            old(self)@.wf(),
            posterior_ratios.len() == old(self)@.cols(),
            forall|v: int| 0 <= v < posterior_ratios.len() ==> posterior_ratios[v] > i64::MIN,
        ensures
            final(self)@.wf(),
            final(self)@ == (BpModel { posterior: posterior_ratios@, ..old(self)@ }),
    {
        self.posterior_ratios = posterior_ratios;
    }

    /// Sets the memory strengths, given in whole units.
    pub fn set_memory_strengths(&mut self, memory_strengths: &Vec<i64>)
        requires
            old(self)@.wf(),
            memory_strengths.len() == old(self)@.cols(),
        ensures
            final(self)@.wf(),
            final(self)@ == (BpModel {
                memory: scaled(memory_strengths@, old(self)@.config.one(), GAIN_LIMIT as int),
                ..old(self)@
            }),
    {
        let ghost d = self@;
        self.memory_strengths = scale_values(memory_strengths, self.config.unit(), GAIN_LIMIT);
        assert(self@ =~= (BpModel {
            memory: scaled(memory_strengths@, d.config.one(), GAIN_LIMIT as int),
            ..d
        }));
    }

    /// Sets the memory strengths, given as fixed-point numbers.
    pub fn set_memory_strengths_fixed(&mut self, memory_strengths: Vec<i64>)
        requires
            old(self)@.wf(),
            memory_strengths.len() == old(self)@.cols(),
            forall|v: int| 0 <= v < memory_strengths.len() ==> is_gain(#[trigger] memory_strengths[v]),
        ensures
            final(self)@.wf(),
            final(self)@ == (BpModel { memory: memory_strengths@, ..old(self)@ }),
    {
        self.memory_strengths = memory_strengths;
    }

    /// Sets the damping of messages to each variable; the common damping counts if absent.
    pub fn set_variable_alphas(&mut self, variable_alphas: Option<Vec<i64>>)
        requires
            old(self)@.wf(),
            variable_alphas matches Some(a) ==> a.len() == old(self)@.cols(),
        ensures
            final(self)@.wf(),
            final(self)@ == (BpModel {
                alphas: match variable_alphas {
                    Some(a) => Some(a@),
                    None => None,
                },
                ..old(self)@
            }),
    {
        self.variable_alphas = variable_alphas;
    }

    /// Goes back to the common damping.
    pub fn clear_variable_alphas(&mut self)
        requires
            old(self)@.wf(),
        ensures
            final(self)@.wf(),
            final(self)@ == (BpModel { alphas: None, ..old(self)@ }),
    {
        self.variable_alphas = None;
    }

    /// The checks of a variable, in increasing order; none if it is out of range.
    pub fn check_neighbors(&self, variable_idx: usize) -> (r: Vec<usize>)
        requires
            self@.wf(),
        ensures
            r@ == (if variable_idx < self@.cols() {
                self@.matrix.col(variable_idx as int)
            } else {
                Seq::empty()
            }),
    {
        if variable_idx < self.check_matrix.cols {
            self.check_matrix.col_indices(variable_idx)
        } else {
            let r: Vec<usize> = Vec::new();
            assert(r@ =~= Seq::empty());
            r
        }
    }

    /// The variables of a check, in increasing order; none if it is out of range.
    pub fn variable_neighbors(&self, check_idx: usize) -> (r: Vec<usize>)
        requires
            self@.wf(),
        ensures
            r@ == (if check_idx < self@.matrix.rows {
                self@.matrix.row(check_idx as int)
            } else {
                Seq::empty()
            }),
    {
        if check_idx < self.check_matrix.rows {
            self.check_matrix.row_indices(check_idx)
        } else {
            let r: Vec<usize> = Vec::new();
            assert(r@ =~= Seq::empty());
            r
        }
    }

    /// The present error estimate.
    pub fn current_decoding(&self) -> (r: &Vec<Bit>)
        ensures
            r@ == self@.decoding,
    {
        &self.decoding
    }

    /// The present posteriors.
    pub fn posterior_ratios(&self) -> (r: &Vec<i64>)
        ensures
            r@ == self@.posterior,
    {
        &self.posterior_ratios
    }

    /// The messages to variables, in column order.
    pub fn check_to_variable_data(&self) -> (r: &Vec<i64>)
        ensures
            r@ == self@.c2v,
    {
        &self.check_to_variable
    }

    /// The messages of checks, by columns, to be changed.
    pub fn check_to_variable_data_mut(&mut self) -> (r: &mut Vec<i64>)
        ensures
            *r == old(self).check_to_variable,
            *final(self) == (MinSumBPDecoder { check_to_variable: *final(r), ..*old(self) }),
    {
        &mut self.check_to_variable
    }

    /// The posterior of variable `variable_idx`.
    pub fn posterior_ratio(&self, variable_idx: usize) -> (r: i64)
        requires
            variable_idx < self@.posterior.len(),
        ensures
            r == self@.posterior[variable_idx as int],
    {
        self.posterior_ratios[variable_idx]
    }

    /// The check of each message to a variable, in column order.
    pub fn check_to_variable_indices(&self) -> (r: &Vec<usize>)
        ensures
            r@ == self@.matrix.col_idx,
    {
        &self.check_matrix.col_idx
    }
}

/// `values` times `factor`, each brought to magnitude `limit` at most.
pub open spec fn scaled(values: Seq<i64>, factor: int, limit: int) -> Seq<i64> {
    Seq::new(values.len(), |i: int| bound(values[i] * factor, limit) as i64)
}

/// `values` times `factor`, each brought to magnitude `limit` at most.
fn scale_values(values: &Vec<i64>, factor: i64, limit: i64) -> (r: Vec<i64>)
    requires
        limit >= 0,
    ensures
        r@ == scaled(values@, factor as int, limit as int),
{
    let mut r: Vec<i64> = Vec::new();
    let mut i: usize = 0;
    while i < values.len()
        invariant
            limit >= 0,
            i <= values.len(),
            r.len() == i,
            forall|k: int| 0 <= k < i ==> r[k] == bound(values[k] * factor, limit as int),
        decreases values.len() - i,
    {
        proof {
            lemma_product_bound(
                values[i as int] as int,
                factor as int,
                0x8000_0000_0000_0000,
                0x8000_0000_0000_0000,
            );
        }
        let product: i128 = (values[i] as i128) * (factor as i128);
        r.push(narrow(product, limit));
        i += 1;
    }
    assert(r@ =~= scaled(values@, factor as int, limit as int));
    r
}

/// `values` with each magnitude at most `limit`.
pub fn bound_values(values: &Vec<i64>, limit: i64) -> (r: Vec<i64>)
    requires
        limit >= 0,
    ensures
        r@ == bound_all(values@, limit as int),
{
    let mut r: Vec<i64> = Vec::new();
    let mut i: usize = 0;
    while i < values.len()
        invariant
            limit >= 0,
            i <= values.len(),
            r.len() == i,
            forall|k: int| 0 <= k < i ==> r[k] == bound(values[k] as int, limit as int),
        decreases values.len() - i,
    {
        r.push(bound_value_magnitude(values[i], limit));
        i += 1;
    }
    assert(r@ =~= bound_all(values@, limit as int));
    r
}

impl Decoder for MinSumBPDecoder {
    type M = BpModel;

    open spec fn model(&self) -> BpModel {
        self@
    }

    open spec fn ready(m: BpModel) -> bool {
        m.wf()
    }

    open spec fn code(m: BpModel) -> MatrixModel {
        m.matrix
    }

    open spec fn weights(m: BpModel) -> Seq<i64> {
        m.config.priors
    }

    open spec fn outcome(m: BpModel, det: Seq<Bit>) -> ResultModel {
        m.decoded(det, Seq::empty())
    }

    open spec fn noted(m: BpModel, det: Seq<Bit>, extra: BPExtraResult) -> bool {
        extra is NoExtra
    }

    open spec fn next(m: BpModel, det: Seq<Bit>) -> BpModel {
        m.initialized().run(det, Seq::empty(), m.config.max_iter as nat)
    }

    open spec fn lasts(m: BpModel, n: nat) -> bool {
        true
    }

    proof fn lemma_ready(m: BpModel) {
    }

    proof fn lemma_lasts(m: BpModel, det: Seq<Bit>, n: nat) {
    }

    fn can_decode(&self, n: usize) -> (r: bool) {
        true
    }

    fn check_matrix(&self) -> (r: &SparseBitMatrix) {
        &self.check_matrix
    }

    fn log_prior_ratios(&self) -> (r: Vec<i64>) {
        self.config.log_prior_ratios.clone()
    }

    fn decode_detailed(&mut self, detectors: &Vec<Bit>) -> (r: DecodeResult) {
        let ghost m = self@;
        proof {
            lemma_run_keeps(
                self@.initialized(),
                detectors@,
                Seq::empty(),
                self@.config.max_iter as nat,
            );
        }
        let r = MinSumBPDecoder::decode_detailed(self, detectors);
        assert(Self::noted(m, detectors@, r.extra));
        r
    }
}

/// A min-sum decoder together with what was drawn for it.
#[derive(Clone, Debug)]
pub struct DrawnMinSumDecoder {
    pub bp_decoder: MinSumBPDecoder,
    /// The coins of each decoding to come: those of each iteration, one for each variable,
    /// which count where messages may be dropped.
    pub supply: Vec<Vec<Vec<bool>>>,
}

/// What such a decoder holds.
#[verifier::ext_equal]
pub struct DrawnMinSumModel {
    pub bp: BpModel,
    pub supply: Seq<Vec<Vec<bool>>>,
}

impl Decoder for DrawnMinSumDecoder {
    type M = DrawnMinSumModel;

    open spec fn model(&self) -> DrawnMinSumModel {
        DrawnMinSumModel { bp: self.bp_decoder@, supply: self.supply@ }
    }

    open spec fn ready(m: DrawnMinSumModel) -> bool {
        m.bp.wf()
    }

    open spec fn code(m: DrawnMinSumModel) -> MatrixModel {
        m.bp.matrix
    }

    open spec fn weights(m: DrawnMinSumModel) -> Seq<i64> {
        m.bp.config.priors
    }

    open spec fn outcome(m: DrawnMinSumModel, det: Seq<Bit>) -> ResultModel {
        m.bp.decoded(det, m.supply[0]@)
    }

    open spec fn noted(m: DrawnMinSumModel, det: Seq<Bit>, extra: BPExtraResult) -> bool {
        extra is NoExtra
    }

    open spec fn next(m: DrawnMinSumModel, det: Seq<Bit>) -> DrawnMinSumModel {
        DrawnMinSumModel {
            bp: m.bp.initialized().run(det, m.supply[0]@, m.bp.config.max_iter as nat),
            supply: m.supply.skip(1),
        }
    }

    open spec fn lasts(m: DrawnMinSumModel, n: nat) -> bool {
        m.supply.len() >= n
    }

    proof fn lemma_ready(m: DrawnMinSumModel) {
    }

    proof fn lemma_lasts(m: DrawnMinSumModel, det: Seq<Bit>, n: nat) {
    }

    fn can_decode(&self, n: usize) -> (r: bool) {
        self.supply.len() >= n
    }

    fn check_matrix(&self) -> (r: &SparseBitMatrix) {
        &self.bp_decoder.check_matrix
    }

    fn log_prior_ratios(&self) -> (r: Vec<i64>) {
        self.bp_decoder.config.log_prior_ratios.clone()
    }

    fn decode_detailed(&mut self, detectors: &Vec<Bit>) -> (r: DecodeResult) {
        let ghost m = self.model();
        proof {
            lemma_run_keeps(
                m.bp.initialized(),
                detectors@,
                m.supply[0]@,
                m.bp.config.max_iter as nat,
            );
        }
        let own: Vec<Vec<bool>> = self.supply.remove(0);
        let r = self.bp_decoder.decode_detailed_with_coins(detectors, &own);
        assert(self.model() =~= Self::next(m, detectors@));
        assert(Self::noted(m, detectors@, r.extra));
        r
    }
}

/// Iterating keeps the code, the configuration and the number of bits.
pub proof fn lemma_run_keeps(d: BpModel, det: Seq<Bit>, coins: Seq<Vec<bool>>, n: nat)
    requires
        d.decoding.len() == d.cols(),
    ensures
        d.run(det, coins, n).matrix == d.matrix,
        d.run(det, coins, n).config == d.config,
        d.run(det, coins, n).decoding.len() == d.cols(),
    decreases n,
{
    if n > 0 {
        let next = d.iterate(det, coins_at(coins, d.iteration as int)).counted();
        if !next.converged(det) {
            lemma_run_keeps(next, det, coins, (n - 1) as nat);
        }
    }
}

proof fn lemma_run_result(d: BpModel, det: Seq<Bit>, coins: Seq<Vec<bool>>, n: nat)
    requires
        n > 0,
    ensures
        ({
            let last = d.run(det, coins, n);
            &&& last.decoding == hard_decision(last.posterior)
            &&& d.iteration < last.iteration <= d.iteration + n
            &&& !last.converged(det) ==> last.iteration == d.iteration + n
        }),
    decreases n,
{
    let next = d.iterate(det, coins_at(coins, d.iteration as int)).counted();
    if !next.converged(det) && n == 1 {
        assert(next.run(det, coins, 0) == next);
    } else if !next.converged(det) {
        lemma_run_result(next, det, coins, (n - 1) as nat);
    }
}

/// What the parts of a result of decoding say of each other: the syndrome is that of the
/// estimate, decoding succeeds exactly if it is the one that was decoded, and decoding gives
/// up only after the last iteration. If there was an iteration, the estimate has an error
/// where the posterior is not positive.
pub proof fn law_result_consistent(d: BpModel, det: Seq<Bit>, coins: Seq<Vec<bool>>)
    requires
        d.decoding.len() == d.cols(),
    ensures
        ({
            let r = d.decoded(det, coins);
            &&& consistent(d.matrix, det, r)
            &&& r.iterations <= r.max_iter == d.config.max_iter
            &&& !r.success ==> r.iterations == r.max_iter
            &&& r.max_iter > 0 ==> 1 <= r.iterations && r.decoding == hard_decision(r.posterior)
        }),
{
    let n = d.config.max_iter as nat;
    lemma_run_keeps(d.initialized(), det, coins, n);
    if n > 0 {
        lemma_run_result(d.initialized(), det, coins, n);
    }
}

/// Two states of decoders for the same code with the same parameters.
spec fn same_setup(a: BpModel, b: BpModel) -> bool {
    &&& a.matrix == b.matrix
    &&& a.config == b.config
    &&& a.priors == b.priors
    &&& a.alphas == b.alphas
}

proof fn lemma_run_same_setup(d: BpModel, det: Seq<Bit>, coins: Seq<Vec<bool>>, n: nat)
    ensures
        same_setup(d, d.run(det, coins, n)),
    decreases n,
{
    if n > 0 {
        let next = d.iterate(det, coins_at(coins, d.iteration as int)).counted();
        if !next.converged(det) {
            lemma_run_same_setup(next, det, coins, (n - 1) as nat);
        }
    }
}

/// The first iteration leaves nothing of what was there before.
proof fn lemma_first_iteration(a: BpModel, b: BpModel, det: Seq<Bit>, coins: Seq<bool>)
    requires
        same_setup(a, b),
    ensures
        a.initialized().iterate(det, coins) == b.initialized().iterate(det, coins),
{
    let x = a.initialized();
    let y = b.initialized();
    assert(x.memory =~= y.memory);
    assert(x.c2v =~= y.c2v);
    assert(x.v2c =~= y.v2c);
    let p = x.check_step(det);
    let q = y.check_step(det);
    assert forall|f: int| 0 <= f < p.c2v.len() implies #[trigger] p.c2v[f] == q.c2v[f] by {
        assert(x.check_message_at(det, f) == y.check_message_at(det, f));
    }
    assert(p.c2v =~= q.c2v);
    assert forall|v: int| #![auto] p.variable_prior(v) == q.variable_prior(v) by {}
    let u = p.variable_step(coins);
    let w = q.variable_step(coins);
    assert(u.v2c =~= w.v2c);
    assert(u.posterior =~= w.posterior);
}

/// The result of decoding does not depend on what was decoded before.
proof fn lemma_decoding_forgets(
    d: BpModel,
    before: Seq<Bit>,
    earlier: Seq<Vec<bool>>,
    det: Seq<Bit>,
    coins: Seq<Vec<bool>>,
)
    ensures
        d.initialized().run(before, earlier, d.config.max_iter as nat).decoded(det, coins)
            == d.decoded(det, coins),
{
    let n = d.config.max_iter as nat;
    let e = d.initialized().run(before, earlier, n);
    lemma_run_same_setup(d.initialized(), before, earlier, n);
    if n > 0 {
        lemma_first_iteration(d, e, det, coins_at(coins, 0));
    } else {
        assert(e.initialized().memory =~= d.initialized().memory);
        assert(e.initialized().c2v =~= d.initialized().c2v);
        assert(e.initialized().v2c =~= d.initialized().v2c);
        assert(e.initialized() == d.initialized());
    }
}

/// A min-sum decoder gives the same result for a syndrome whatever it decoded before.
pub proof fn law_decoding_forgets(d: BpModel, det: Seq<Bit>, earlier: Seq<Vec<Bit>>, n: nat)
    ensures
        MinSumBPDecoder::outcome(after::<MinSumBPDecoder>(d, earlier, n), det)
            == MinSumBPDecoder::outcome(d, det),
    decreases n,
{
    if n > 0 {
        law_decoding_forgets(d, det, earlier, (n - 1) as nat);
        lemma_decoding_forgets(
            after::<MinSumBPDecoder>(d, earlier, (n - 1) as nat),
            earlier[n - 1]@,
            Seq::empty(),
            det,
            Seq::empty(),
        );
    }
}

/// The result of decoding with coins does not depend on what was decoded before, nor on the
/// coins that were thrown then.
pub proof fn law_drawn_decoding_forgets(
    d: DrawnMinSumModel,
    before: Seq<Bit>,
    det: Seq<Bit>,
    own: Vec<Vec<bool>>,
)
    requires
        d.supply.len() > 0,
    ensures
        DrawnMinSumDecoder::outcome(
            DrawnMinSumModel { supply: seq![own], ..DrawnMinSumDecoder::next(d, before) },
            det,
        ) == DrawnMinSumDecoder::outcome(DrawnMinSumModel { supply: seq![own], ..d }, det),
{
    lemma_decoding_forgets(d.bp, before, d.supply[0]@, det, own@);
}

/// Limiting ratios once is limiting them for good.
pub proof fn law_limit_stays(values: Seq<i64>, limit: int)
    requires
        0 <= limit <= i64::MAX,
    ensures
        bound_all(bound_all(values, limit), limit) == bound_all(values, limit),
{
    assert(bound_all(bound_all(values, limit), limit) =~= bound_all(values, limit));
}

} // verus!
