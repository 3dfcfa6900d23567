//! Alternating legs: ordinary ones, and ones that update the unsatisfied checks last.

use vstd::prelude::*;

use crate::arith::GAIN_LIMIT;
use crate::decoder::{
    bits_of_negatives, consistent, lemma_legs_push, negative_bits, BPExtraResult, DecodeResult,
    Decoder, LegTrace, LegsDrawn, LegsModel, ResultModel,
};
use crate::logistic::{
    are_upper_shares, build_logistic_table, logistic_table, ENTRIES_PER_UNIT,
};
use crate::matrix::{Bit, MatrixModel, SparseBitMatrix};
use crate::min_sum::{coins_at, is_gain, BpModel, MinSumBPDecoder, MinSumDecoderConfig};
use crate::relay::{are_gains, final_leg, leg_coins, total_iterations};

verus! {

/// The parameters of a decoder with alternating legs.
#[derive(Clone, Debug)]
pub struct LRBPDecoderConfig {
    /// The most iterations of the first leg.
    pub pre_iter: usize,
    /// The most legs; the first one is always run.
    pub num_sets: usize,
    /// The most iterations of the second leg and of every leg with an even number.
    pub set_max_iter: usize,
    /// The most iterations of every other leg.
    pub odd_leg_max_iter: usize,
    /// The memory strength of legs with an even number.
    pub even_leg_uniform_gamma: i64,
    /// The memory strengths of the other legs, in turn; drawn if absent.
    pub explicit_gammas: Option<Vec<Vec<i64>>>,
    /// The number of messages of an edge whose sum tells its oscillation; at least one.
    pub osc_window: usize,
    /// How fast the friction of an edge grows with its oscillation.
    pub friction_slope: i64,
    /// The oscillation of an edge whose friction is half.
    pub friction_shift: i64,
    /// The temperature of kicks.
    pub tau: i64,
    /// The most sweeps of a leg with a dynamic schedule.
    pub t_dyn: usize,
    pub dyn_mode: DynMode,
    /// What every update adds to the score of a check; between zero and one unit.
    pub gamma_dyn_penalty: i64,
    /// The logistic function, by which friction and certainty go.
    pub logistic: Vec<i64>,
    /// The entries of `logistic` for one unit of its argument.
    pub logistic_per_unit: i64,
}

/// Which check is updated next in a dynamic schedule.
#[derive(Clone, Copy, Debug, PartialEq, Eq, Structural)]
pub enum DynMode {
    /// The check of least error probability among those not updated yet.
    EBP,
    /// The check of least error probability, with a penalty for every update.
    PEBP,
}

/// How the memory strength of a leg with a dynamic schedule is found.
#[derive(Clone, Copy, Debug, PartialEq, Eq, Structural)]
pub enum DynGammaMode {
    /// It is given.
    Fixed,
    /// It is drawn.
    Random,
}

impl LRBPDecoderConfig {
    /// The usual parameters, where the unit is `one`: a friction of slope two without shift, and
    /// kicks at a fifth of a unit.
    pub open spec fn is_usual(self, one: int) -> bool {
        &&& self.pre_iter == 80
        &&& self.num_sets == 300
        &&& self.set_max_iter == 60
        &&& self.odd_leg_max_iter == 60
        &&& self.even_leg_uniform_gamma == 0
        &&& self.explicit_gammas is None
        &&& self.osc_window == 5
        &&& self.friction_slope == 2 * one
        &&& self.friction_shift == 0
        &&& self.tau == one / 5
        &&& self.t_dyn == 0
        &&& self.dyn_mode is EBP
        &&& self.gamma_dyn_penalty == 0
        &&& self.logistic@ == logistic_table(one)
        &&& self.logistic_per_unit == ENTRIES_PER_UNIT
    }

    /// The logistic function can be read off, where the unit is `one`.
    pub open spec fn logistic_wf(self, one: int) -> bool {
        &&& self.logistic_per_unit >= 1
        &&& are_upper_shares(self.logistic@, one)
    }

    /// The usual parameters, where the unit is `one`.
    pub fn with_unit(one: i64) -> (r: Self)
        requires
            1 <= one <= GAIN_LIMIT,
        ensures
            r.is_usual(one as int),
            r.logistic_wf(one as int),
    {
        LRBPDecoderConfig {
            pre_iter: 80,
            num_sets: 300,
            set_max_iter: 60,
            odd_leg_max_iter: 60,
            even_leg_uniform_gamma: 0,
            explicit_gammas: None,
            osc_window: 5,
            friction_slope: 2 * one,
            friction_shift: 0,
            tau: one / 5,
            t_dyn: 0,
            dyn_mode: DynMode::EBP,
            gamma_dyn_penalty: 0,
            logistic: build_logistic_table(one),
            logistic_per_unit: ENTRIES_PER_UNIT,
        }
    }
}

impl Default for LRBPDecoderConfig {
    /// The usual parameters in thousandths.
    fn default() -> (r: Self)
        ensures
            r.is_usual(1000),
            r.logistic_wf(1000),
    {
        LRBPDecoderConfig::with_unit(1000)
    }
}

/// The legs that were run and the state after the last.
#[verifier::ext_equal]
pub struct LrbpTrace {
    pub legs: Seq<ResultModel>,
    pub last: BpModel,
}

/// Where the syndrome of `bits` differs from the detectors.
pub open spec fn residual(matrix: MatrixModel, det: Seq<Bit>, bits: Seq<Bit>) -> Seq<Bit> {
    Seq::new(matrix.rows, |c: int| matrix.mul_mod2(bits)[c] ^ det[c])
}

/// The checks below `n` that fired and that the negative marginals leave unsatisfied.
pub open spec fn targets_below(
    matrix: MatrixModel,
    det: Seq<Bit>,
    marginal: Seq<i64>,
    n: nat,
) -> Seq<usize>
    decreases n,
{
    if n == 0 {
        Seq::empty()
    } else {
        let before = targets_below(matrix, det, marginal, (n - 1) as nat);
        if det[n - 1] == 1 && residual(matrix, det, negative_bits(marginal))[n - 1] == 1 {
            before.push((n - 1) as usize)
        } else {
            before
        }
    }
}

/// The checks that fired and that the negative marginals leave unsatisfied.
pub open spec fn targets(matrix: MatrixModel, det: Seq<Bit>, marginal: Seq<i64>) -> Seq<usize> {
    targets_below(matrix, det, marginal, matrix.rows)
}

/// Variable `v` is in one of the first `n` of the `checks`.
pub open spec fn touched(matrix: MatrixModel, checks: Seq<usize>, n: int, v: int) -> bool {
    exists|k: int|
        0 <= k < n && #[trigger] matrix.row(checks[k] as int).contains(v as usize)
}

/// Variable `v` is in one of the checks below `n` that are not among the `checks`.
pub open spec fn touched_outside(matrix: MatrixModel, checks: Seq<usize>, n: int, v: int) -> bool {
    exists|c: int|
        0 <= c < n && !checks.contains(c as usize) && #[trigger] matrix.row(c).contains(
            v as usize,
        )
}

impl BpModel {
    /// The checks below `n` that are not among the `checks` have sent new messages, one after
    /// the other.
    pub open spec fn outside_checked(self, det: Seq<Bit>, checks: Seq<usize>, n: nat) -> BpModel
        decreases n,
    {
        if n == 0 {
            self
        } else {
            let before = self.outside_checked(det, checks, (n - 1) as nat);
            if checks.contains((n - 1) as usize) {
                before
            } else {
                before.check_updated(det, n - 1)
            }
        }
    }

    /// The variables below `n` in checks that are not among the `checks` have sent new
    /// messages, one after the other.
    pub open spec fn outside_answered(
        self,
        coins: Seq<bool>,
        checks: Seq<usize>,
        n: nat,
    ) -> BpModel
        decreases n,
    {
        if n == 0 {
            self
        } else {
            let before = self.outside_answered(coins, checks, (n - 1) as nat);
            if touched_outside(self.matrix, checks, self.matrix.rows as int, n - 1) {
                before.variable_resent(coins, n - 1)
            } else {
                before
            }
        }
    }

    /// The first `n` of the `variables` have sent new messages, one after the other.
    pub open spec fn answered(self, coins: Seq<bool>, variables: Seq<usize>, n: nat) -> BpModel
        decreases n,
    {
        if n == 0 {
            self
        } else {
            self.answered(coins, variables, (n - 1) as nat).variable_resent(
                coins,
                variables[n - 1] as int,
            )
        }
    }

    /// The first `n` of the `checks` have sent new messages, one after the other, and the
    /// variables of each have answered before the next. The coins of check `k` are row
    /// `base + k`.
    pub open spec fn targets_updated(
        self,
        det: Seq<Bit>,
        coins: Seq<Vec<bool>>,
        base: int,
        checks: Seq<usize>,
        n: nat,
    ) -> BpModel
        decreases n,
    {
        if n == 0 {
            self
        } else {
            let c = checks[n - 1] as int;
            let row = self.matrix.row(c);
            self.targets_updated(det, coins, base, checks, (n - 1) as nat).check_updated(
                det,
                c,
            ).answered(coins_at(coins, base + n - 1), row, row.len())
        }
    }

    /// One iteration that updates the `checks` last.
    pub open spec fn surgical_iterate(
        self,
        det: Seq<Bit>,
        coins: Seq<Vec<bool>>,
        checks: Seq<usize>,
    ) -> BpModel {
        let base = (self.iteration * (checks.len() + 1)) as int;
        let outside = self.outside_checked(det, checks, self.matrix.rows).outside_answered(
            coins_at(coins, base),
            checks,
            self.cols(),
        );
        outside.targets_updated(det, coins, base + 1, checks, checks.len()).decided()
    }

    /// Iterating in this way until the decoding explains the detectors, `n` times at most.
    /// The last iteration counts only where it does not explain them.
    pub open spec fn surgical_settle(
        self,
        det: Seq<Bit>,
        coins: Seq<Vec<bool>>,
        checks: Seq<usize>,
        n: nat,
    ) -> BpModel
        decreases n,
    {
        if n == 0 {
            self
        } else {
            let next = self.surgical_iterate(det, coins, checks);
            if next.converged(det) {
                next
            } else {
                next.counted().surgical_settle(det, coins, checks, (n - 1) as nat)
            }
        }
    }

    /// The posteriors take the place of the priors and the messages are at their start.
    pub open spec fn reseeded(self) -> BpModel {
        BpModel { iteration: 0, priors: self.posterior, ..self }.checks_silent().variables_at_prior()
    }
}

impl LRBPDecoderConfig {
    /// The number of legs that may be run.
    pub open spec fn leg_limit(self) -> nat {
        if self.num_sets == 0 {
            1
        } else {
            self.num_sets as nat
        }
    }

    /// The most iterations of a leg after the first.
    pub open spec fn longest(self) -> nat {
        if self.set_max_iter < self.odd_leg_max_iter {
            self.odd_leg_max_iter as nat
        } else {
            self.set_max_iter as nat
        }
    }

    /// The parameters fit a code with `cols` variables.
    pub open spec fn wf(self, cols: nat) -> bool {
        &&& self.explicit_gammas matches Some(g) ==> {
            &&& g.len() > 0 || self.leg_limit() == 1
            &&& forall|s: int| 0 <= s < g.len() ==> are_gains(#[trigger] g[s]@, cols)
        }
        &&& is_gain(self.even_leg_uniform_gamma)
        &&& self.num_sets < usize::MAX
        &&& self.pre_iter + self.num_sets * self.longest() <= usize::MAX
    }

    /// What was drawn suffices for all legs.
    pub open spec fn supplied(self, draws: Seq<Vec<i64>>, cols: nat) -> bool {
        self.explicit_gammas is None ==> {
            &&& draws.len() >= self.leg_limit() / 2
            &&& forall|k: int|
                0 <= k < self.leg_limit() / 2 ==> are_gains(#[trigger] draws[k]@, cols)
        }
    }

    /// The memory strengths of leg `leg`: the uniform ones if its number is even, else the
    /// explicit ones in turn or those drawn.
    pub open spec fn gammas_at(self, draws: Seq<Vec<i64>>, leg: nat, cols: nat) -> Seq<i64> {
        if leg % 2 == 0 {
            Seq::new(cols, |v: int| self.even_leg_uniform_gamma)
        } else {
            match self.explicit_gammas {
                Some(g) => g[leg as int % g.len() as int]@,
                None => draws[leg as int / 2]@,
            }
        }
    }

    /// The most iterations of leg `leg`.
    pub open spec fn budget(self, leg: nat) -> nat {
        if leg == 0 {
            self.pre_iter as nat
        } else if leg == 1 || leg % 2 == 0 {
            self.set_max_iter as nat
        } else {
            self.odd_leg_max_iter as nat
        }
    }

    /// The state after leg `leg`, which follows one that ended in `d`.
    pub open spec fn leg(
        self,
        draws: Seq<Vec<i64>>,
        coins: Seq<Vec<bool>>,
        det: Seq<Bit>,
        d: BpModel,
        leg: nat,
    ) -> BpModel {
        let s = BpModel { memory: self.gammas_at(draws, leg, d.cols()), ..d.reseeded() };
        if leg % 2 == 0 {
            s.surgical_settle(det, coins, targets(d.matrix, det, d.posterior), self.budget(leg))
        } else {
            s.settle(det, coins, self.budget(leg))
        }
    }

    /// The trace with leg `leg` added.
    pub open spec fn leg_added(
        self,
        draws: Seq<Vec<i64>>,
        coins: Seq<Vec<Vec<bool>>>,
        det: Seq<Bit>,
        t: LrbpTrace,
        leg: nat,
    ) -> LrbpTrace {
        let last = self.leg(draws, leg_coins(coins, leg as int), det, t.last, leg);
        LrbpTrace { legs: t.legs.push(last.leg_result(det, self.budget(leg))), last }
    }

    /// Running the legs from `leg` on, until one converges.
    pub open spec fn legs_from(
        self,
        draws: Seq<Vec<i64>>,
        coins: Seq<Vec<Vec<bool>>>,
        det: Seq<Bit>,
        t: LrbpTrace,
        leg: nat,
    ) -> LrbpTrace
        decreases self.leg_limit() - leg,
    {
        if leg >= self.leg_limit() || t.legs.last().success {
            t
        } else {
            self.legs_from(draws, coins, det, self.leg_added(draws, coins, det, t, leg), leg + 1)
        }
    }

    /// All legs of a decoder in the state `d`.
    pub open spec fn run(
        self,
        draws: Seq<Vec<i64>>,
        coins: Seq<Vec<Vec<bool>>>,
        det: Seq<Bit>,
        d: BpModel,
    ) -> LrbpTrace {
        let last = d.initialized().settle(det, leg_coins(coins, 0), self.pre_iter as nat);
        let first = LrbpTrace { legs: seq![last.leg_result(det, self.pre_iter as nat)], last };
        self.legs_from(draws, coins, det, first, 1)
    }
}

proof fn lemma_answered_same_matrix(
    d: BpModel,
    coins: Seq<bool>,
    variables: Seq<usize>,
    n: nat,
)
    ensures
        d.answered(coins, variables, n).matrix == d.matrix,
    decreases n,
{
    if n > 0 {
        lemma_answered_same_matrix(d, coins, variables, (n - 1) as nat);
    }
}

proof fn lemma_targets_same_matrix(
    d: BpModel,
    det: Seq<Bit>,
    coins: Seq<Vec<bool>>,
    base: int,
    checks: Seq<usize>,
    n: nat,
)
    ensures
        d.targets_updated(det, coins, base, checks, n).matrix == d.matrix,
    decreases n,
{
    if n > 0 {
        lemma_targets_same_matrix(d, det, coins, base, checks, (n - 1) as nat);
        let c = checks[n - 1] as int;
        let row = d.matrix.row(c);
        lemma_answered_same_matrix(
            d.targets_updated(det, coins, base, checks, (n - 1) as nat).check_updated(det, c),
            coins_at(coins, base + n - 1),
            row,
            row.len(),
        );
    }
}

proof fn lemma_outside_same_matrix(
    d: BpModel,
    det: Seq<Bit>,
    coins: Seq<bool>,
    checks: Seq<usize>,
    n: nat,
)
    ensures
        d.outside_checked(det, checks, n).matrix == d.matrix,
        d.outside_answered(coins, checks, n).matrix == d.matrix,
    decreases n,
{
    if n > 0 {
        lemma_outside_same_matrix(d, det, coins, checks, (n - 1) as nat);
    }
}

proof fn lemma_surgical_same_matrix(
    d: BpModel,
    det: Seq<Bit>,
    coins: Seq<Vec<bool>>,
    checks: Seq<usize>,
    n: nat,
)
    ensures
        d.surgical_settle(det, coins, checks, n).matrix == d.matrix,
    decreases n,
{
    if n > 0 {
        let base = (d.iteration * (checks.len() + 1)) as int;
        let checked = d.outside_checked(det, checks, d.matrix.rows);
        let outside = checked.outside_answered(coins_at(coins, base), checks, d.cols());
        lemma_outside_same_matrix(d, det, coins_at(coins, base), checks, d.matrix.rows);
        lemma_outside_same_matrix(checked, det, coins_at(coins, base), checks, d.cols());
        lemma_targets_same_matrix(outside, det, coins, base + 1, checks, checks.len());
        let next = d.surgical_iterate(det, coins, checks);
        assert(next.matrix == d.matrix);
        if !next.converged(det) {
            lemma_surgical_same_matrix(next.counted(), det, coins, checks, (n - 1) as nat);
        }
    }
}

proof fn lemma_settle_same_matrix(d: BpModel, det: Seq<Bit>, coins: Seq<Vec<bool>>, n: nat)
    ensures
        d.settle(det, coins, n).matrix == d.matrix,
    decreases n,
{
    if n > 0 {
        let next = d.iterate(det, coins_at(coins, d.iteration as int));
        if !next.converged(det) {
            lemma_settle_same_matrix(next.counted(), det, coins, (n - 1) as nat);
        }
    }
}

/// A decoder with alternating legs never runs on after a leg that converged: its result is
/// the last leg, and every leg before failed. The result is consistent.
pub proof fn law_lrbp_stops(
    config: LRBPDecoderConfig,
    draws: Seq<Vec<i64>>,
    coins: Seq<Vec<Vec<bool>>>,
    det: Seq<Bit>,
    d: BpModel,
)
    ensures
        ({
            let t = config.run(draws, coins, det, d);
            &&& 1 <= t.legs.len() <= config.leg_limit()
            &&& forall|l: int| 0 <= l < t.legs.len() - 1 ==> !(#[trigger] t.legs[l]).success
            &&& t.legs.len() < config.leg_limit() ==> final_leg(t.legs).success
            &&& consistent(d.matrix, det, final_leg(t.legs))
        }),
{
    let last = d.initialized().settle(det, leg_coins(coins, 0), config.pre_iter as nat);
    let first = LrbpTrace { legs: seq![last.leg_result(det, config.pre_iter as nat)], last };
    lemma_settle_same_matrix(
        d.initialized(),
        det,
        leg_coins(coins, 0),
        config.pre_iter as nat,
    );
    lemma_legs_from(config, draws, coins, det, first, 1);
}

proof fn lemma_legs_from(
    config: LRBPDecoderConfig,
    draws: Seq<Vec<i64>>,
    coins: Seq<Vec<Vec<bool>>>,
    det: Seq<Bit>,
    t: LrbpTrace,
    leg: nat,
)
    requires
        t.legs.len() == leg,
        1 <= leg <= config.leg_limit(),
        forall|l: int| 0 <= l < t.legs.len() - 1 ==> !(#[trigger] t.legs[l]).success,
        consistent(t.last.matrix, det, t.legs.last()),
    ensures
        ({
            let all = config.legs_from(draws, coins, det, t, leg);
            &&& 1 <= all.legs.len() <= config.leg_limit()
            &&& forall|l: int| 0 <= l < all.legs.len() - 1 ==> !(#[trigger] all.legs[l]).success
            &&& all.legs.len() < config.leg_limit() ==> all.legs.last().success
            &&& consistent(t.last.matrix, det, all.legs.last())
        }),
    decreases config.leg_limit() - leg,
{
    if leg < config.leg_limit() && !t.legs.last().success {
        let next = config.leg_added(draws, coins, det, t, leg);
        let s = BpModel {
            memory: config.gammas_at(draws, leg, t.last.cols()),
            ..t.last.reseeded()
        };
        let c = leg_coins(coins, leg as int);
        lemma_settle_same_matrix(s, det, c, config.budget(leg));
        lemma_surgical_same_matrix(
            s,
            det,
            c,
            targets(t.last.matrix, det, t.last.posterior),
            config.budget(leg),
        );
        assert forall|l: int| 0 <= l < next.legs.len() - 1 implies !(
        #[trigger] next.legs[l]).success by {
            assert(next.legs[l] == t.legs[l]);
        }
        lemma_legs_from(config, draws, coins, det, next, leg + 1);
    }
}

/// A decoder with alternating legs.
#[derive(Clone, Debug)]
pub struct LRBPDecoder {
    pub bp_decoder: MinSumBPDecoder,
    pub lrbp_config: LRBPDecoderConfig,
}

/// Where the syndrome of `hard_decision` differs from the detectors.
pub fn syndrome_from_hard_decision(
    check_matrix: &SparseBitMatrix,
    detectors: &Vec<Bit>,
    hard_decision: &Vec<Bit>,
) -> (r: Vec<Bit>)
    requires
        check_matrix@.wf(),
        detectors.len() == check_matrix@.rows,
        hard_decision.len() == check_matrix@.cols,
    ensures
        r@ == residual(check_matrix@, detectors@, hard_decision@),
{
    let syndrome: Vec<Bit> = check_matrix.mul_mod2(hard_decision);
    let mut r: Vec<Bit> = Vec::new();
    let mut c: usize = 0;
    while c < detectors.len()
        invariant
            detectors.len() == check_matrix@.rows,
            syndrome@ == check_matrix@.mul_mod2(hard_decision@),
            c <= detectors.len(),
            r.len() == c,
            forall|k: int| 0 <= k < c ==> r[k] == syndrome[k] ^ detectors[k],
        decreases detectors.len() - c,
    {
        r.push(syndrome[c] ^ detectors[c]);
        c += 1;
    }
    assert(r@ =~= residual(check_matrix@, detectors@, hard_decision@));
    r
}

/// The errors where a marginal is negative.
pub fn hard_decision_from_marginal(marginal: &Vec<i64>) -> (r: Vec<Bit>)
    ensures
        r@ == negative_bits(marginal@),
{
    bits_of_negatives(marginal)
}

/// The checks that fired and that the negative marginals leave unsatisfied, and which
/// variables they have.
pub fn build_residual_targets(
    check_matrix: &SparseBitMatrix,
    detectors: &Vec<Bit>,
    carry_marginal: &Vec<i64>,
) -> (r: (Vec<usize>, Vec<bool>))
    requires
        check_matrix@.wf(),
        detectors.len() == check_matrix@.rows,
        carry_marginal.len() == check_matrix@.cols,
    ensures
        r.0@ == targets(check_matrix@, detectors@, carry_marginal@),
        forall|k: int| 0 <= k < r.0.len() ==> (#[trigger] r.0[k]) < check_matrix@.rows,
        r.1.len() == check_matrix@.cols,
        forall|v: int|
            0 <= v < r.1.len() ==> (#[trigger] r.1[v]) == touched(
                check_matrix@,
                r.0@,
                r.0@.len() as int,
                v,
            ),
{
    let ghost m = check_matrix@;
    let hard_decision: Vec<Bit> = hard_decision_from_marginal(carry_marginal);
    let current: Vec<Bit> = syndrome_from_hard_decision(check_matrix, detectors, &hard_decision);
    let mut checks: Vec<usize> = Vec::new();
    let mut c: usize = 0;
    while c < check_matrix.rows
        invariant
            m == check_matrix@,
            detectors.len() == m.rows,
            current@ == residual(m, detectors@, negative_bits(carry_marginal@)),
            c <= m.rows,
            checks@ == targets_below(m, detectors@, carry_marginal@, c as nat),
            forall|k: int| 0 <= k < checks.len() ==> (#[trigger] checks[k]) < c,
        decreases check_matrix.rows - c,
    {
        if detectors[c] == 1 && current[c] == 1 {
            checks.push(c);
        }
        c += 1;
    }
    let mut variables: Vec<bool> = vec![false; check_matrix.cols];
    let mut k: usize = 0;
    while k < checks.len()
        invariant
            m == check_matrix@,
            m.wf(),
            forall|j: int| 0 <= j < checks.len() ==> (#[trigger] checks[j]) < m.rows,
            k <= checks.len(),
            variables.len() == m.cols,
            forall|v: int|
                0 <= v < m.cols ==> (#[trigger] variables[v]) == touched(m, checks@, k as int, v),
        decreases checks.len() - k,
    {
        let ghost before = variables@;
        mark_row(check_matrix, checks[k], &mut variables);
        proof {
            assert forall|v: int| 0 <= v < m.cols implies (#[trigger] variables[v]) == touched(
                m,
                checks@,
                k + 1,
                v,
            ) by {
                assert(before[v] == touched(m, checks@, k as int, v));
                if m.row(checks@[k as int] as int).contains(v as usize) {
                    assert(touched(m, checks@, k + 1, v));
                }
                if touched(m, checks@, k as int, v) {
                    let j = choose|j: int|
                        0 <= j < k && #[trigger] m.row(checks@[j] as int).contains(v as usize);
                    assert(m.row(checks@[j] as int).contains(v as usize));
                }
            }
        }
        k += 1;
    }
    (checks, variables)
}

/// Marks the variables of a check.
fn mark_row(check_matrix: &SparseBitMatrix, c: usize, marks: &mut Vec<bool>)
    requires
        check_matrix@.wf(),
        c < check_matrix@.rows,
        old(marks).len() == check_matrix@.cols,
    ensures
        final(marks).len() == old(marks).len(),
        forall|v: int|
            0 <= v < final(marks).len() ==> (#[trigger] final(marks)[v]) == (old(marks)[v]
                || check_matrix@.row(c as int).contains(v as usize)),
{
    let row: Vec<usize> = check_matrix.row_indices(c);
    let ghost start = marks@;
    let mut k: usize = 0;
    while k < row.len()
        invariant
            row@ == check_matrix@.row(c as int),
            forall|j: int| 0 <= j < row.len() ==> (#[trigger] row[j]) < marks.len(),
            marks.len() == start.len(),
            k <= row.len(),
            forall|v: int|
                0 <= v < marks.len() ==> (#[trigger] marks[v]) == (start[v] || row@.take(
                    k as int,
                ).contains(v as usize)),
        decreases row.len() - k,
    {
        let ghost before = marks@;
        marks.set(row[k], true);
        proof {
            let shorter = row@.take(k as int);
            let longer = row@.take(k + 1);
            assert(longer =~= shorter.push(row@[k as int]));
            assert forall|v: int| 0 <= v < marks.len() implies (#[trigger] marks[v]) == (start[v]
                || longer.contains(v as usize)) by {
                assert(before[v] == (start[v] || shorter.contains(v as usize)));
                if shorter.contains(v as usize) {
                    let j = shorter.index_of(v as usize);
                    assert(longer[j] == v as usize);
                }
                assert(longer[k as int] == row@[k as int]);
            }
        }
        k += 1;
    }
    assert(row@.take(row@.len() as int) =~= row@);
}

/// The coins of row `t * width + k`; none are thrown past the end.
pub(crate) fn row_of_coins(coins: &Vec<Vec<bool>>, t: usize, width: usize, k: usize) -> (r: Vec<bool>)
    ensures
        r@ == coins_at(coins@, t * width + k),
{
    proof {
        assert(t * width <= 0xffff_ffff_ffff_ffff * 0xffff_ffff_ffff_ffff) by (nonlinear_arith)
            requires
                0 <= t <= 0xffff_ffff_ffff_ffff,
                0 <= width <= 0xffff_ffff_ffff_ffff,
        ;
        assert(t * width >= 0) by (nonlinear_arith)
            requires
                t >= 0,
                width >= 0,
        ;
    }
    let row: u128 = (t as u128) * (width as u128) + (k as u128);
    if row < coins.len() as u128 {
        coins[row as usize].clone()
    } else {
        let none: Vec<bool> = Vec::new();
        assert(none@ =~= Seq::empty());
        none
    }
}

/// Whether each of `rows` checks is among the `checks`.
fn members(checks: &Vec<usize>, rows: usize) -> (r: Vec<bool>)
    requires
        forall|k: int| 0 <= k < checks.len() ==> (#[trigger] checks[k]) < rows,
    ensures
        r.len() == rows,
        forall|c: int| 0 <= c < rows ==> (#[trigger] r[c]) == checks@.contains(c as usize),
{
    let mut r: Vec<bool> = vec![false; rows];
    let mut k: usize = 0;
    while k < checks.len()
        invariant
            forall|j: int| 0 <= j < checks.len() ==> (#[trigger] checks[j]) < rows,
            k <= checks.len(),
            r.len() == rows,
            forall|c: int|
                0 <= c < rows ==> (#[trigger] r[c]) == checks@.take(k as int).contains(c as usize),
        decreases checks.len() - k,
    {
        let ghost before = r@;
        r.set(checks[k], true);
        proof {
            let shorter = checks@.take(k as int);
            let longer = checks@.take(k + 1);
            assert(longer =~= shorter.push(checks@[k as int]));
            assert forall|c: int| 0 <= c < rows implies (#[trigger] r[c]) == longer.contains(
                c as usize,
            ) by {
                assert(before[c] == shorter.contains(c as usize));
                if shorter.contains(c as usize) {
                    let j = shorter.index_of(c as usize);
                    assert(longer[j] == c as usize);
                }
                assert(longer[k as int] == checks@[k as int]);
            }
        }
        k += 1;
    }
    assert(checks@.take(checks@.len() as int) =~= checks@);
    r
}

impl LRBPDecoder {
    /// The parts fit each other.
    pub open spec fn wf(self) -> bool {
        &&& self.bp_decoder@.wf()
        &&& self.lrbp_config.wf(self.bp_decoder@.cols())
    }

    /// A decoder for the code with check matrix `check_matrix`.
    pub fn new(
        check_matrix: SparseBitMatrix,
        min_sum_config: MinSumDecoderConfig,
        lrbp_config: LRBPDecoderConfig,
    ) -> (r: Self)
        requires
            check_matrix@.wf(),
            min_sum_config@.wf(check_matrix@.cols),
            lrbp_config.wf(check_matrix@.cols),
        ensures
            r.wf(),
            r.bp_decoder@ == BpModel::built(check_matrix@, min_sum_config@),
            r.lrbp_config == lrbp_config,
    {
        LRBPDecoder { bp_decoder: MinSumBPDecoder::new(check_matrix, min_sum_config), lrbp_config }
    }

    /// The variables of a row send new messages, one after the other.
    fn answer_row(&mut self, coins: &Vec<bool>, row: &Vec<usize>)
        requires
            old(self).wf(),
        ensures
            final(self).wf(),
            final(self).lrbp_config == old(self).lrbp_config,
            final(self).bp_decoder@ == old(self).bp_decoder@.answered(
                coins@,
                row@,
                row@.len(),
            ),
            final(self).bp_decoder@.matrix == old(self).bp_decoder@.matrix,
            final(self).bp_decoder@.config == old(self).bp_decoder@.config,
            final(self).bp_decoder@.iteration == old(self).bp_decoder@.iteration,
    {
        let ghost d = self.bp_decoder@;
        let mut k: usize = 0;
        while k < row.len()
            invariant
                self.wf(),
                self.lrbp_config == old(self).lrbp_config,
                k <= row.len(),
                self.bp_decoder@ == d.answered(coins@, row@, k as nat),
                self.bp_decoder@.matrix == d.matrix,
                self.bp_decoder@.config == d.config,
                self.bp_decoder@.iteration == d.iteration,
            decreases row.len() - k,
        {
            self.bp_decoder.run_variable_to_check_update_for_variable(coins, row[k]);
            k += 1;
        }
    }

    /// The checks that are not among the targets, and their variables, send new messages.
    fn run_outside_phase(
        &mut self,
        detectors: &Vec<Bit>,
        coins: &Vec<bool>,
        is_target: &Vec<bool>,
        Ghost(checks): Ghost<Seq<usize>>,
    )
        requires
            old(self).wf(),
            detectors.len() == old(self).bp_decoder@.matrix.rows,
            is_target.len() == old(self).bp_decoder@.matrix.rows,
            forall|c: int|
                0 <= c < is_target.len() ==> (#[trigger] is_target[c]) == checks.contains(
                    c as usize,
                ),
        ensures
            final(self).wf(),
            final(self).lrbp_config == old(self).lrbp_config,
            ({
                let d = old(self).bp_decoder@;
                final(self).bp_decoder@ == d.outside_checked(
                    detectors@,
                    checks,
                    d.matrix.rows,
                ).outside_answered(coins@, checks, d.cols())
            }),
            final(self).bp_decoder@.matrix == old(self).bp_decoder@.matrix,
            final(self).bp_decoder@.config == old(self).bp_decoder@.config,
            final(self).bp_decoder@.iteration == old(self).bp_decoder@.iteration,
    {
        let ghost d = self.bp_decoder@;
        let ghost m = d.matrix;
        let rows: usize = self.bp_decoder.check_matrix.rows;
        let cols: usize = self.bp_decoder.check_matrix.cols;
        let mut marks: Vec<bool> = vec![false; cols];
        let mut c: usize = 0;
        while c < rows
            invariant
                self.wf(),
                self.lrbp_config == old(self).lrbp_config,
                rows == m.rows,
                cols == m.cols,
                detectors.len() == rows,
                is_target.len() == rows,
                forall|k: int|
                    0 <= k < rows ==> (#[trigger] is_target[k]) == checks.contains(k as usize),
                c <= rows,
                self.bp_decoder@ == d.outside_checked(detectors@, checks, c as nat),
                self.bp_decoder@.matrix == m,
                self.bp_decoder@.config == d.config,
                self.bp_decoder@.iteration == d.iteration,
                marks.len() == cols,
                forall|v: int|
                    0 <= v < cols ==> (#[trigger] marks[v]) == touched_outside(
                        m,
                        checks,
                        c as int,
                        v,
                    ),
            decreases rows - c,
        {
            let ghost before = marks@;
            if !is_target[c] {
                self.bp_decoder.run_check_to_variable_update_for_check(detectors, c);
                mark_row(&self.bp_decoder.check_matrix, c, &mut marks);
            }
            proof {
                assert forall|v: int| 0 <= v < cols implies (#[trigger] marks[v])
                    == touched_outside(m, checks, c + 1, v) by {
                    assert(before[v] == touched_outside(m, checks, c as int, v));
                    if touched_outside(m, checks, c as int, v) {
                        let j = choose|j: int|
                            0 <= j < c && !checks.contains(j as usize) && #[trigger] m.row(
                                j,
                            ).contains(v as usize);
                        assert(m.row(j).contains(v as usize));
                    }
                    if !is_target[c as int] && m.row(c as int).contains(v as usize) {
                        assert(touched_outside(m, checks, c + 1, v));
                    }
                }
            }
            c += 1;
        }
        let ghost e = self.bp_decoder@;
        let mut v: usize = 0;
        while v < cols
            invariant
                self.wf(),
                self.lrbp_config == old(self).lrbp_config,
                cols == m.cols,
                marks.len() == cols,
                forall|u: int|
                    0 <= u < cols ==> (#[trigger] marks[u]) == touched_outside(
                        m,
                        checks,
                        m.rows as int,
                        u,
                    ),
                e.matrix == m,
                v <= cols,
                self.bp_decoder@ == e.outside_answered(coins@, checks, v as nat),
                self.bp_decoder@.matrix == m,
                self.bp_decoder@.config == d.config,
                self.bp_decoder@.iteration == d.iteration,
            decreases cols - v,
        {
            if marks[v] {
                self.bp_decoder.run_variable_to_check_update_for_variable(coins, v);
            }
            v += 1;
        }
    }

    /// One iteration that updates the target checks last.
    fn run_surgical_iteration(
        &mut self,
        detectors: &Vec<Bit>,
        coins: &Vec<Vec<bool>>,
        target_checks: &Vec<usize>,
        is_target: &Vec<bool>,
    )
        requires
            old(self).wf(),
            detectors.len() == old(self).bp_decoder@.matrix.rows,
            target_checks.len() < usize::MAX,
            forall|k: int|
                0 <= k < target_checks.len() ==> (#[trigger] target_checks[k])
                    < old(self).bp_decoder@.matrix.rows,
            is_target.len() == old(self).bp_decoder@.matrix.rows,
            forall|c: int|
                0 <= c < is_target.len() ==> (#[trigger] is_target[c]) == target_checks@.contains(
                    c as usize,
                ),
        ensures
            final(self).wf(),
            final(self).lrbp_config == old(self).lrbp_config,
            final(self).bp_decoder@ == old(self).bp_decoder@.surgical_iterate(
                detectors@,
                coins@,
                target_checks@,
            ),
            final(self).bp_decoder@.matrix == old(self).bp_decoder@.matrix,
            final(self).bp_decoder@.config == old(self).bp_decoder@.config,
            final(self).bp_decoder@.iteration == old(self).bp_decoder@.iteration,
    {
        let ghost d = self.bp_decoder@;
        let ghost base = (d.iteration * (target_checks@.len() + 1)) as int;
        let t: usize = self.bp_decoder.current_iteration;
        let width: usize = target_checks.len() + 1;
        let outside_coins: Vec<bool> = row_of_coins(coins, t, width, 0);
        self.run_outside_phase(detectors, &outside_coins, is_target, Ghost(target_checks@));
        let ghost e = self.bp_decoder@;
        let mut k: usize = 0;
        while k < target_checks.len()
            invariant
                self.wf(),
                self.lrbp_config == old(self).lrbp_config,
                detectors.len() == d.matrix.rows,
                width == target_checks.len() + 1,
                base == t * width,
                forall|j: int|
                    0 <= j < target_checks.len() ==> (#[trigger] target_checks[j]) < d.matrix.rows,
                k <= target_checks.len(),
                e.matrix == d.matrix,
                self.bp_decoder@ == e.targets_updated(
                    detectors@,
                    coins@,
                    base + 1,
                    target_checks@,
                    k as nat,
                ),
                self.bp_decoder@.matrix == d.matrix,
                self.bp_decoder@.config == d.config,
                self.bp_decoder@.iteration == d.iteration,
            decreases target_checks.len() - k,
        {
            let c: usize = target_checks[k];
            let row: Vec<usize> = self.bp_decoder.variable_neighbors(c);
            let row_coins: Vec<bool> = row_of_coins(coins, t, width, k + 1);
            self.bp_decoder.run_check_to_variable_update_for_check(detectors, c);
            self.answer_row(&row_coins, &row);
            k += 1;
        }
        self.bp_decoder.recompute_hard_decision();
    }

    /// A leg that updates the target checks last.
    pub fn run_even_surgical_leg(
        &mut self,
        detectors: &Vec<Bit>,
        coins: &Vec<Vec<bool>>,
        max_iter: usize,
        target_checks: &Vec<usize>,
    ) -> (r: DecodeResult)
        requires
            old(self).wf(),
            old(self).bp_decoder@.iteration == 0,
            detectors.len() == old(self).bp_decoder@.matrix.rows,
            target_checks.len() < usize::MAX,
            forall|k: int|
                0 <= k < target_checks.len() ==> (#[trigger] target_checks[k])
                    < old(self).bp_decoder@.matrix.rows,
        ensures
            final(self).wf(),
            final(self).lrbp_config == old(self).lrbp_config,
            final(self).bp_decoder@ == old(self).bp_decoder@.surgical_settle(
                detectors@,
                coins@,
                target_checks@,
                max_iter as nat,
            ),
            final(self).bp_decoder@.matrix == old(self).bp_decoder@.matrix,
            final(self).bp_decoder@.config == old(self).bp_decoder@.config,
            r@ == final(self).bp_decoder@.leg_result(detectors@, max_iter as nat),
            r.iterations <= max_iter,
            r.decoding.len() == old(self).bp_decoder@.cols(),
            r.posterior_ratios.len() == old(self).bp_decoder@.cols(),
            r.success ==> old(self).bp_decoder@.matrix.mul_mod2(r.decoding@) == detectors@,
    {
        let ghost d = self.bp_decoder@;
        let ghost all = d.surgical_settle(detectors@, coins@, target_checks@, max_iter as nat);
        let is_target: Vec<bool> = members(target_checks, self.bp_decoder.check_matrix.rows);
        let mut success: bool = false;
        let mut decoded: Vec<Bit> = self.bp_decoder.compute_decoded_detectors();
        let mut i: usize = 0;
        while i < max_iter && !success
            invariant
                self.wf(),
                self.lrbp_config == old(self).lrbp_config,
                self.bp_decoder@.matrix == d.matrix,
                self.bp_decoder@.config == d.config,
                detectors.len() == d.matrix.rows,
                target_checks.len() < usize::MAX,
                forall|k: int|
                    0 <= k < target_checks.len() ==> (#[trigger] target_checks[k]) < d.matrix.rows,
                is_target.len() == d.matrix.rows,
                forall|c: int|
                    0 <= c < is_target.len() ==> (#[trigger] is_target[c])
                        == target_checks@.contains(c as usize),
                i <= max_iter,
                self.bp_decoder@.iteration == (if success {
                    i - 1
                } else {
                    i as int
                }),
                decoded@ == self.bp_decoder@.decoded_detectors(),
                i == 0 ==> !success,
                i > 0 ==> success == self.bp_decoder@.converged(detectors@),
                all == (if success {
                    self.bp_decoder@
                } else {
                    self.bp_decoder@.surgical_settle(
                        detectors@,
                        coins@,
                        target_checks@,
                        (max_iter - i) as nat,
                    )
                }),
            decreases max_iter - i + (if success {
                0int
            } else {
                1
            }),
        {
            self.run_surgical_iteration(detectors, coins, target_checks, &is_target);
            decoded = self.bp_decoder.compute_decoded_detectors();
            success = self.bp_decoder.check_convergence(detectors, &decoded);
            if !success {
                self.bp_decoder.current_iteration = self.bp_decoder.current_iteration + 1;
            }
            i += 1;
        }
        if max_iter == 0 {
            success = self.bp_decoder.check_convergence(detectors, &decoded);
        }
        let mut r: DecodeResult = self.bp_decoder.build_result(success, decoded, max_iter);
        r.iterations = i;
        assert(r@ =~= self.bp_decoder@.leg_result(detectors@, max_iter as nat));
        r
    }

    /// An ordinary leg.
    pub fn run_standard_leg(
        &mut self,
        detectors: &Vec<Bit>,
        coins: &Vec<Vec<bool>>,
        max_iter: usize,
    ) -> (r: DecodeResult)
        requires
            old(self).wf(),
            old(self).bp_decoder@.iteration == 0,
            detectors.len() == old(self).bp_decoder@.matrix.rows,
        ensures
            final(self).wf(),
            final(self).lrbp_config == old(self).lrbp_config,
            final(self).bp_decoder@ == old(self).bp_decoder@.settle(
                detectors@,
                coins@,
                max_iter as nat,
            ),
            final(self).bp_decoder@.matrix == old(self).bp_decoder@.matrix,
            final(self).bp_decoder@.config == old(self).bp_decoder@.config,
            r@ == final(self).bp_decoder@.leg_result(detectors@, max_iter as nat),
            r.iterations <= max_iter,
            r.decoding.len() == old(self).bp_decoder@.cols(),
            r.posterior_ratios.len() == old(self).bp_decoder@.cols(),
            r.success ==> old(self).bp_decoder@.matrix.mul_mod2(r.decoding@) == detectors@,
    {
        self.bp_decoder.run_until_settled(detectors, coins, max_iter)
    }

    /// Starts leg `leg` from the posteriors of the leg before.
    fn init_leg(&mut self, draws: &Vec<Vec<i64>>, leg: usize)
        requires
            old(self).wf(),
            old(self).lrbp_config.supplied(draws@, old(self).bp_decoder@.cols()),
            1 <= leg < old(self).lrbp_config.leg_limit(),
        ensures
            final(self).wf(),
            final(self).lrbp_config == old(self).lrbp_config,
            final(self).bp_decoder@ == (BpModel {
                memory: old(self).lrbp_config.gammas_at(
                    draws@,
                    leg as nat,
                    old(self).bp_decoder@.cols(),
                ),
                ..old(self).bp_decoder@.reseeded()
            }),
    {
        let ghost d = self.bp_decoder@;
        let ghost expected = self.lrbp_config.gammas_at(draws@, leg as nat, d.cols());
        let marginal: Vec<i64> = self.bp_decoder.posterior_ratios.clone();
        self.bp_decoder.current_iteration = 0;
        self.bp_decoder.set_log_prior_ratio_fixed(marginal);
        self.bp_decoder.initialize_check_to_variable();
        self.bp_decoder.initialize_variable_to_check();
        assert(self.bp_decoder@ =~= d.reseeded());
        let cols: usize = self.bp_decoder.check_matrix.cols;
        let gammas: Vec<i64> = if leg % 2 == 0 {
            vec![self.lrbp_config.even_leg_uniform_gamma; cols]
        } else {
            match &self.lrbp_config.explicit_gammas {
                Some(g) => {
                    let row: usize = leg % g.len();
                    assert(are_gains(g@[row as int]@, d.cols()));
                    g[row].clone()
                },
                None => {
                    assert(are_gains(draws@[leg as int / 2]@, d.cols()));
                    draws[leg / 2].clone()
                },
            }
        };
        proof {
            assert(gammas@ =~= expected);
            assert(are_gains(gammas@, d.cols()));
        }
        self.bp_decoder.set_memory_strengths_fixed(gammas);
    }

    /// Runs leg `leg`.
    fn run_leg(
        &mut self,
        detectors: &Vec<Bit>,
        draws: &Vec<Vec<i64>>,
        coins: &Vec<Vec<bool>>,
        leg: usize,
    ) -> (r: DecodeResult)
        requires
            old(self).wf(),
            old(self).lrbp_config.supplied(draws@, old(self).bp_decoder@.cols()),
            detectors.len() == old(self).bp_decoder@.matrix.rows,
            1 <= leg < old(self).lrbp_config.leg_limit(),
        ensures
            final(self).wf(),
            final(self).lrbp_config == old(self).lrbp_config,
            final(self).bp_decoder@ == old(self).lrbp_config.leg(
                draws@,
                coins@,
                detectors@,
                old(self).bp_decoder@,
                leg as nat,
            ),
            final(self).bp_decoder@.matrix == old(self).bp_decoder@.matrix,
            final(self).bp_decoder@.config == old(self).bp_decoder@.config,
            r@ == final(self).bp_decoder@.leg_result(
                detectors@,
                old(self).lrbp_config.budget(leg as nat),
            ),
            r.iterations <= old(self).lrbp_config.longest(),
            r.decoding.len() == old(self).bp_decoder@.cols(),
            r.posterior_ratios.len() == old(self).bp_decoder@.cols(),
            r.success ==> old(self).bp_decoder@.matrix.mul_mod2(r.decoding@) == detectors@,
    {
        if leg % 2 == 0 {
            let (target_checks, _) = build_residual_targets(
                &self.bp_decoder.check_matrix,
                detectors,
                &self.bp_decoder.posterior_ratios,
            );
            proof {
                lemma_targets_fewer(
                    self.bp_decoder@.matrix,
                    detectors@,
                    self.bp_decoder@.posterior,
                    self.bp_decoder@.matrix.rows,
                );
            }
            self.init_leg(draws, leg);
            let max_iter: usize = self.lrbp_config.set_max_iter;
            self.run_even_surgical_leg(detectors, coins, max_iter, &target_checks)
        } else {
            self.init_leg(draws, leg);
            let max_iter: usize = if leg == 1 {
                self.lrbp_config.set_max_iter
            } else {
                self.lrbp_config.odd_leg_max_iter
            };
            self.run_standard_leg(detectors, coins, max_iter)
        }
    }

    /// Decodes a syndrome. `draws[k]` holds the memory strengths that were drawn for leg
    /// `2 k + 1`, and `coins[l]` the draws of leg `l` that count where messages may be
    /// dropped.
    pub fn decode_detailed(
        &mut self,
        detectors: &Vec<Bit>,
        draws: &Vec<Vec<i64>>,
        coins: &Vec<Vec<Vec<bool>>>,
    ) -> (r: DecodeResult)
        requires
            old(self).wf(),
            old(self).lrbp_config.supplied(draws@, old(self).bp_decoder@.cols()),
            detectors.len() == old(self).bp_decoder@.matrix.rows,
        ensures
            final(self).wf(),
            final(self).lrbp_config == old(self).lrbp_config,
            ({
                let t = old(self).lrbp_config.run(
                    draws@,
                    coins@,
                    detectors@,
                    old(self).bp_decoder@,
                );
                &&& final(self).bp_decoder@ == t.last
                &&& r@ == final_leg(t.legs)
                &&& r.extra matches BPExtraResult::RelayTrace(e) && e@ == LegsModel::of(t.legs)
            }),
            final(self).bp_decoder@.matrix == old(self).bp_decoder@.matrix,
            final(self).bp_decoder@.config == old(self).bp_decoder@.config,
            r.decoding.len() == old(self).bp_decoder@.cols(),
            r.posterior_ratios.len() == old(self).bp_decoder@.cols(),
            r.success ==> old(self).bp_decoder@.matrix.mul_mod2(r.decoding@) == detectors@,
    {
        let ghost config = self.lrbp_config;
        let ghost d = self.bp_decoder@;
        let ghost all = config.run(draws@, coins@, detectors@, d);
        let none: Vec<Vec<bool>> = Vec::new();
        assert(none@ =~= Seq::empty());
        let total_legs: usize = if self.lrbp_config.num_sets == 0 {
            1
        } else {
            self.lrbp_config.num_sets
        };
        let pre_iter: usize = self.lrbp_config.pre_iter;
        self.bp_decoder.initialize_decoder();
        let mut result: DecodeResult = if coins.len() > 0 {
            self.run_standard_leg(detectors, &coins[0], pre_iter)
        } else {
            self.run_standard_leg(detectors, &none, pre_iter)
        };
        let mut trace: LegTrace = LegTrace::new();
        trace.record(&result);
        let mut total: usize = result.iterations;
        let ghost mut t = LrbpTrace { legs: seq![result@], last: self.bp_decoder@ };
        proof {
            assert(t.legs.drop_last() =~= Seq::empty());
            reveal_with_fuel(total_iterations, 2);
            reveal_with_fuel(LegsModel::of, 2);
        }
        let mut leg: usize = 1;
        while leg < total_legs && !result.success
            invariant
                self.wf(),
                self.lrbp_config == config,
                config.supplied(draws@, d.cols()),
                total_legs == config.leg_limit(),
                pre_iter == config.pre_iter,
                none@ == Seq::<Vec<bool>>::empty(),
                self.bp_decoder@.matrix == d.matrix,
                self.bp_decoder@.config == d.config,
                detectors.len() == d.matrix.rows,
                1 <= leg <= total_legs,
                t.last == self.bp_decoder@,
                t.legs.len() == leg,
                trace@ == LegsModel::of(t.legs),
                total == total_iterations(t.legs),
                total <= pre_iter + (leg - 1) * config.longest(),
                result@ == t.legs.last(),
                result.decoding.len() == d.cols(),
                result.posterior_ratios.len() == d.cols(),
                result.success ==> d.matrix.mul_mod2(result.decoding@) == detectors@,
                all == config.legs_from(draws@, coins@, detectors@, t, leg as nat),
            decreases total_legs - leg,
        {
            let ghost next = config.leg_added(draws@, coins@, detectors@, t, leg as nat);
            result = if leg < coins.len() {
                self.run_leg(detectors, draws, &coins[leg], leg)
            } else {
                self.run_leg(detectors, draws, &none, leg)
            };
            trace.record(&result);
            proof {
                lemma_legs_push(t.legs, result@);
                assert(next.legs.drop_last() =~= t.legs);
                assert(next.legs.last() == result@);
                let each = config.longest();
                assert(leg * each == (leg - 1) * each + each) by (nonlinear_arith);
                assert(leg * each <= config.num_sets * each) by (nonlinear_arith)
                    requires
                        leg <= config.num_sets,
                        each >= 0,
                ;
                t = next;
            }
            total = total + result.iterations;
            leg += 1;
        }
        result.iterations = total;
        result.extra = BPExtraResult::RelayTrace(trace);
        assert(result@ =~= final_leg(t.legs));
        result
    }
}

proof fn lemma_targets_fewer(matrix: MatrixModel, det: Seq<Bit>, marginal: Seq<i64>, n: nat)
    ensures
        targets_below(matrix, det, marginal, n).len() <= n,
    decreases n,
{
    if n > 0 {
        lemma_targets_fewer(matrix, det, marginal, (n - 1) as nat);
    }
}

/// A decoder with alternating legs together with what was drawn for it.
#[derive(Clone, Debug)]
pub struct DrawnLrbpDecoder {
    pub lrbp: LRBPDecoder,
    /// What was drawn for each decoding to come.
    pub supply: Vec<LegsDrawn<Vec<i64>>>,
}

/// What such a decoder holds.
#[verifier::ext_equal]
pub struct DrawnLrbpModel {
    pub config: LRBPDecoderConfig,
    pub bp: BpModel,
    pub supply: Seq<LegsDrawn<Vec<i64>>>,
}

impl DrawnLrbpModel {
    /// The legs of decoding `det`.
    pub open spec fn run(self, det: Seq<Bit>) -> LrbpTrace {
        self.config.run(self.supply[0].draws@, self.supply[0].coins@, det, self.bp)
    }
}

impl Decoder for DrawnLrbpDecoder {
    type M = DrawnLrbpModel;

    open spec fn model(&self) -> DrawnLrbpModel {
        DrawnLrbpModel {
            config: self.lrbp.lrbp_config,
            bp: self.lrbp.bp_decoder@,
            supply: self.supply@,
        }
    }

    open spec fn ready(m: DrawnLrbpModel) -> bool {
        &&& m.bp.wf()
        &&& m.config.wf(m.bp.cols())
        &&& forall|k: int|
            0 <= k < m.supply.len() ==> m.config.supplied(
                (#[trigger] m.supply[k]).draws@,
                m.bp.cols(),
            )
    }

    open spec fn code(m: DrawnLrbpModel) -> MatrixModel {
        m.bp.matrix
    }

    open spec fn weights(m: DrawnLrbpModel) -> Seq<i64> {
        m.bp.config.priors
    }

    open spec fn outcome(m: DrawnLrbpModel, det: Seq<Bit>) -> ResultModel {
        final_leg(m.run(det).legs)
    }

    open spec fn noted(m: DrawnLrbpModel, det: Seq<Bit>, extra: BPExtraResult) -> bool {
        extra matches BPExtraResult::RelayTrace(t) && t@ == LegsModel::of(m.run(det).legs)
    }

    open spec fn next(m: DrawnLrbpModel, det: Seq<Bit>) -> DrawnLrbpModel {
        DrawnLrbpModel { bp: m.run(det).last, supply: m.supply.skip(1), ..m }
    }

    open spec fn lasts(m: DrawnLrbpModel, n: nat) -> bool {
        m.supply.len() >= n
    }

    proof fn lemma_ready(m: DrawnLrbpModel) {
    }

    proof fn lemma_lasts(m: DrawnLrbpModel, det: Seq<Bit>, n: nat) {
    }

    fn can_decode(&self, n: usize) -> (r: bool) {
        self.supply.len() >= n
    }

    fn check_matrix(&self) -> (r: &SparseBitMatrix) {
        &self.lrbp.bp_decoder.check_matrix
    }

    fn log_prior_ratios(&self) -> (r: Vec<i64>) {
        self.lrbp.bp_decoder.config.log_prior_ratios.clone()
    }

    fn decode_detailed(&mut self, detectors: &Vec<Bit>) -> (r: DecodeResult) {
        let ghost m = self.model();
        assert(m.config.supplied(m.supply[0].draws@, m.bp.cols()));
        let own: LegsDrawn<Vec<i64>> = self.supply.remove(0);
        let r = self.lrbp.decode_detailed(detectors, &own.draws, &own.coins);
        assert(self.model() =~= Self::next(m, detectors@));
        assert(Self::noted(m, detectors@, r.extra));
        r
    }
}

} // verus!
