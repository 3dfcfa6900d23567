//! Rejection of doubtful decodings: a syndrome is decoded again with the priors of the
//! errors found made smaller, and the estimate is rejected if its logical class changes.

use vstd::prelude::*;

use crate::decoder::{
    decoding_quality, get_decoding_quality, same_bits, BPExtraResult, DecodeResult, Decoder,
    ResultModel,
};
use crate::arith::bound;
use crate::draws::{any_seed, draw_values, seeded};
use crate::ensemble_decoder::difference;
use crate::matrix::{Bit, MatrixModel, SparseBitMatrix};
use crate::min_sum::{BpModel, ConfigModel, MinSumBPDecoder, MinSumDecoderConfig};
use crate::order::{is_order, order, sorted_indices, Key};
use crate::relay::{relayed, RelayDecoder, RelayDecoderConfig, RelayDraws};

verus! {

/// Which errors get other priors.
#[derive(Clone, Copy, Debug, PartialEq, Eq, Structural)]
pub enum ReweightingMode {
    /// All of them.
    Full,
    /// Some of them.
    Partial,
}

impl Default for ReweightingMode {
    fn default() -> (r: Self)
        ensures
            r is Full,
    {
        ReweightingMode::Full
    }
}

/// How some of the errors are chosen.
#[derive(Clone, Copy, Debug, PartialEq, Eq, Structural)]
pub enum ReweightingSelection {
    /// By chance.
    Random,
    /// The most likely ones.
    Prior,
}

impl Default for ReweightingSelection {
    fn default() -> (r: Self)
        ensures
            r is Random,
    {
        ReweightingSelection::Random
    }
}

/// The parameters of rejection.
#[derive(Clone, Copy, Debug)]
pub struct RejectionConfig {
    pub mode: ReweightingMode,
    pub selection: ReweightingSelection,
    /// The share of the errors that is chosen, as a fraction: what is above the line.
    pub k_numerator: u64,
    /// What is below the line.
    pub k_denominator: u64,
    /// The seed of the choice; zero for a random one.
    pub seed: u64,
}

impl Default for RejectionConfig {
    fn default() -> (r: Self)
        ensures
            r.mode is Full,
            r.selection is Random,
            r.k_numerator == 1,
            r.k_denominator == 2,
            r.seed == 0,
    {
        RejectionConfig {
            mode: ReweightingMode::Full,
            selection: ReweightingSelection::Random,
            k_numerator: 1,
            k_denominator: 2,
            seed: 0,
        }
    }
}

/// The iterations of a stage.
#[derive(Clone, Copy, Debug, PartialEq, Eq, Structural)]
pub enum StageIterations {
    /// The stage was not run.
    NotRun,
    /// The stage did not converge.
    Unconverged,
    /// The stage converged.
    Converged(usize),
}

/// The verdict on a decoding.
#[derive(Clone, Copy, Debug)]
pub struct RejectionExtraResult {
    pub r2_iter: StageIterations,
    pub r3_iter: StageIterations,
    /// Whether the second stage found the class of the first.
    pub r2_class: Option<bool>,
    /// Whether the third stage found the class of the second.
    pub r3_class: Option<bool>,
    /// The stage that rejected the decoding, or zero.
    pub reject: u8,
    /// By how much the estimate of the stage that rejected weighs more than the first.
    pub rejection_gap: Option<i128>,
}

/// The places of the errors below `n`.
pub open spec fn errors_below(bits: Seq<Bit>, n: nat) -> Seq<usize>
    decreases n,
{
    if n == 0 {
        Seq::empty()
    } else {
        let before = errors_below(bits, (n - 1) as nat);
        if bits[n - 1] == 1 {
            before.push((n - 1) as usize)
        } else {
            before
        }
    }
}

/// The places of the errors.
pub open spec fn errors_of(bits: Seq<Bit>) -> Seq<usize> {
    errors_below(bits, bits.len())
}

/// The errors are in increasing order, and each is a place where a bit is set.
pub proof fn lemma_errors_below(bits: Seq<Bit>, n: nat)
    requires
        n <= bits.len() <= usize::MAX,
    ensures
        errors_below(bits, n).len() <= n,
        forall|a: int|
            0 <= a < errors_below(bits, n).len() ==> (#[trigger] errors_below(bits, n)[a]) < n
                && bits[errors_below(bits, n)[a] as int] == 1,
        forall|a: int, b: int|
            0 <= a < b < errors_below(bits, n).len() ==> (#[trigger] errors_below(bits, n)[a]) < (
            #[trigger] errors_below(bits, n)[b]),
    decreases n,
{
    if n > 0 {
        lemma_errors_below(bits, (n - 1) as nat);
    }
}

/// The priors of the `errors`, as keys.
pub open spec fn prior_keys(priors: Seq<i64>, errors: Seq<usize>) -> Seq<Key> {
    Seq::new(errors.len(), |a: int| (priors[errors[a] as int] as i128, 0i128))
}

/// `priors` with those of the `picked` variables taken from `other`.
pub open spec fn reweighed(priors: Seq<i64>, other: Seq<i64>, picked: Seq<usize>) -> Seq<i64> {
    Seq::new(
        priors.len(),
        |v: int|
            if picked.contains(v as usize) {
                other[v]
            } else {
                priors[v]
            },
    )
}

/// The iterations of a stage that was run.
pub open spec fn stage_iterations(stage: ResultModel) -> StageIterations {
    if stage.success {
        StageIterations::Converged(stage.iterations as usize)
    } else {
        StageIterations::Unconverged
    }
}

impl RejectionConfig {
    /// The share has a denominator.
    pub open spec fn wf(self) -> bool {
        self.k_denominator > 0
    }

    /// How many of `n` errors are chosen: their share rounded up, at least one, at most all.
    pub open spec fn share(self, n: nat) -> nat {
        let up = (self.k_numerator * n + self.k_denominator - 1) / self.k_denominator as int;
        if up > n {
            n
        } else if up < 1 {
            1
        } else {
            up as nat
        }
    }

    /// `picked` is a choice of `errors`, whose prior ratios are among `priors`: all of them;
    /// or their share, which are those of least ratio or distinct ones.
    pub open spec fn chooses(self, priors: Seq<i64>, errors: Seq<usize>, picked: Seq<usize>) -> bool {
        if errors.len() == 0 || self.mode is Full {
            picked == errors
        } else {
            let n = self.share(errors.len());
            match self.selection {
                ReweightingSelection::Random => {
                    &&& picked.len() == n
                    &&& picked.no_duplicates()
                    &&& forall|a: int| 0 <= a < n ==> errors.contains(#[trigger] picked[a])
                },
                ReweightingSelection::Prior => picked == Seq::new(
                    n,
                    |a: int| errors[order(prior_keys(priors, errors))[a] as int],
                ),
            }
        }
    }

    /// How many of `n` errors are chosen.
    pub fn partial_count(&self, n: usize) -> (r: usize)
        requires
            self.wf(),
            n > 0,
        ensures
            r == self.share(n as nat),
            1 <= r <= n,
    {
        proof {
            assert(self.k_numerator * n <= 0xffff_ffff_ffff_ffff * 0xffff_ffff_ffff_ffff)
                by (nonlinear_arith)
                requires
                    0 <= self.k_numerator <= 0xffff_ffff_ffff_ffff,
                    0 <= n <= 0xffff_ffff_ffff_ffff,
            ;
            assert(self.k_numerator * n >= 0) by (nonlinear_arith)
                requires
                    self.k_numerator >= 0,
                    n >= 0,
            ;
        }
        let product: u128 = (self.k_numerator as u128) * (n as u128);
        let up: u128 = (product + (self.k_denominator as u128) - 1) / (self.k_denominator as u128);
        if up > n as u128 {
            n
        } else if up < 1 {
            1
        } else {
            up as usize
        }
    }

    /// The chosen errors of an estimate, whose prior ratios are among `priors`.
    pub fn select_reweight_indices(
        &self,
        priors: &Vec<i64>,
        decoding: &Vec<Bit>,
        rng: &mut rand::rngs::StdRng,
    ) -> (r: Vec<usize>)
        requires
            self.wf(),
            decoding.len() == priors.len(),
        ensures
            self.chooses(priors@, errors_of(decoding@), r@),
            forall|a: int| 0 <= a < r.len() ==> (#[trigger] r[a]) < decoding.len(),
    {
        let mut indices: Vec<usize> = Vec::new();
        let mut v: usize = 0;
        while v < decoding.len()
            invariant
                v <= decoding.len(),
                indices@ == errors_below(decoding@, v as nat),
            decreases decoding.len() - v,
        {
            if decoding[v] == 1 {
                indices.push(v);
            }
            v += 1;
        }
        proof {
            lemma_errors_below(decoding@, decoding@.len());
        }
        let ghost errors = errors_of(decoding@);
        if indices.len() == 0 {
            return indices;
        }
        match self.mode {
            ReweightingMode::Full => indices,
            ReweightingMode::Partial => {
                let count: usize = self.partial_count(indices.len());
                match self.selection {
                    ReweightingSelection::Random => {
                        let r: Vec<usize> = draw_values(rng, &indices, count);
                        proof {
                            assert forall|a: int| 0 <= a < r.len() implies (#[trigger] r[a])
                                < decoding.len() by {
                                assert(errors.contains(r[a]));
                            }
                        }
                        r
                    },
                    ReweightingSelection::Prior => {
                        let mut keys: Vec<Key> = Vec::new();
                        let mut a: usize = 0;
                        while a < indices.len()
                            invariant
                                a <= indices.len(),
                                indices@ == errors,
                                decoding.len() == priors.len(),
                                forall|b: int|
                                    0 <= b < indices.len() ==> (#[trigger] errors[b])
                                        < decoding.len(),
                                keys.len() == a,
                                forall|b: int|
                                    0 <= b < a ==> keys[b] == prior_keys(priors@, errors)[b],
                            decreases indices.len() - a,
                        {
                            keys.push((priors[indices[a]] as i128, 0i128));
                            a += 1;
                        }
                        assert(keys@ =~= prior_keys(priors@, errors));
                        let sorted: Vec<usize> = sorted_indices(&keys);
                        let ghost expected = Seq::new(
                            count as nat,
                            |b: int| errors[order(prior_keys(priors@, errors))[b] as int],
                        );
                        let mut r: Vec<usize> = Vec::new();
                        while r.len() < count
                            invariant
                                r.len() <= count <= indices.len(),
                                indices@ == errors,
                                is_order(sorted@, keys@, keys@.len()),
                                keys.len() == indices.len(),
                                sorted@ == order(prior_keys(priors@, errors)),
                                expected == Seq::new(
                                    count as nat,
                                    |b: int| errors[order(prior_keys(priors@, errors))[b] as int],
                                ),
                                forall|b: int|
                                    0 <= b < indices.len() ==> (#[trigger] errors[b])
                                        < decoding.len(),
                                forall|b: int|
                                    0 <= b < r.len() ==> (#[trigger] r[b]) == expected[b] && r[b]
                                        < decoding.len(),
                            decreases count - r.len(),
                        {
                            let place: usize = sorted[r.len()];
                            r.push(indices[place]);
                        }
                        assert(r@ =~= expected);
                        r
                    },
                }
            },
        }
    }
}

/// `priors` with those of the `picked` variables taken from `other`.
pub fn apply_reweighting(priors: &Vec<i64>, other: &Vec<i64>, picked: &Vec<usize>) -> (r: Vec<i64>)
    requires
        other.len() == priors.len(),
        forall|a: int| 0 <= a < picked.len() ==> (#[trigger] picked[a]) < priors.len(),
    ensures
        r@ == reweighed(priors@, other@, picked@),
{
    let mut out: Vec<i64> = priors.clone();
    let mut a: usize = 0;
    assert(out@ =~= reweighed(priors@, other@, picked@.take(0)));
    while a < picked.len()
        invariant
            a <= picked.len(),
            other.len() == priors.len(),
            forall|b: int| 0 <= b < picked.len() ==> (#[trigger] picked[b]) < priors.len(),
            out@ == reweighed(priors@, other@, picked@.take(a as int)),
        decreases picked.len() - a,
    {
        let v: usize = picked[a];
        let ghost before = picked@.take(a as int);
        let ghost with = picked@.take(a + 1);
        out.set(v, other[v]);
        proof {
            assert(with =~= before.push(v));
            assert forall|u: usize| with.contains(u) <==> before.contains(u) || u == v by {
                if before.contains(u) {
                    let k = before.index_of(u);
                    assert(with[k] == u);
                }
                if u == v {
                    assert(with[a as int] == u);
                }
            }
            assert(out@ =~= reweighed(priors@, other@, with));
        }
        a += 1;
    }
    assert(picked@.take(a as int) =~= picked@);
    out
}

/// The verdict on the estimate of a first stage, from its class and its weight and those of
/// a second stage, and those of a third stage where the second found the same class.
pub open spec fn verdict(
    coset1: Seq<Bit>,
    weight1: int,
    stage2: ResultModel,
    coset2: Seq<Bit>,
    weight2: int,
    stage3: ResultModel,
    coset3: Seq<Bit>,
    weight3: int,
) -> RejectionExtraResult {
    if coset1 != coset2 {
        RejectionExtraResult {
            r2_iter: stage_iterations(stage2),
            r3_iter: StageIterations::NotRun,
            r2_class: Some(false),
            r3_class: None,
            reject: 2,
            rejection_gap: Some(bound(weight2 - weight1, i128::MAX as int) as i128),
        }
    } else {
        RejectionExtraResult {
            r2_iter: stage_iterations(stage2),
            r3_iter: stage_iterations(stage3),
            r2_class: Some(true),
            r3_class: Some(coset2 == coset3),
            reject: if coset2 == coset3 {
                0
            } else {
                3
            },
            rejection_gap: if coset2 == coset3 {
                None
            } else {
                Some(bound(weight3 - weight1, i128::MAX as int) as i128)
            },
        }
    }
}

/// A decoding is accepted exactly if all three stages find one class. It has a gap exactly
/// if it is rejected, and the third stage is run exactly if the second did not reject.
pub proof fn law_verdict(
    coset1: Seq<Bit>,
    weight1: int,
    stage2: ResultModel,
    coset2: Seq<Bit>,
    weight2: int,
    stage3: ResultModel,
    coset3: Seq<Bit>,
    weight3: int,
)
    ensures
        ({
            let e = verdict(
                coset1,
                weight1,
                stage2,
                coset2,
                weight2,
                stage3,
                coset3,
                weight3,
            );
            &&& e.reject == 0 <==> coset1 == coset2 && coset2 == coset3
            &&& e.reject == 0 || e.reject == 2 || e.reject == 3
            &&& e.rejection_gap is Some <==> e.reject != 0
            &&& e.r3_iter is NotRun <==> e.reject == 2
            &&& e.r2_class == Some(e.reject != 2)
            &&& e.reject == 3 ==> e.r3_class == Some(false)
        }),
{
}

/// What a rejection decoder holds, besides its generator.
#[verifier::ext_equal]
pub struct RejectionModel {
    pub matrix: MatrixModel,
    pub observables: MatrixModel,
    pub min_sum: ConfigModel,
    pub relay: RelayDecoderConfig,
    pub reweighted: Seq<i64>,
    pub config: RejectionConfig,
    pub draws: Seq<RelayDraws>,
    pub coins: Seq<Vec<Vec<bool>>>,
}

impl RejectionModel {
    /// The parts fit each other.
    pub open spec fn wf(self) -> bool {
        &&& self.matrix.wf()
        &&& self.observables.wf()
        &&& self.observables.cols == self.matrix.cols
        &&& self.min_sum.wf(self.matrix.cols)
        &&& self.relay.wf(self.matrix.cols)
        &&& self.relay.supplied(self.draws, self.matrix.cols)
        &&& self.reweighted.len() == self.matrix.cols
        &&& forall|v: int| 0 <= v < self.reweighted.len() ==> self.reweighted[v] > i64::MIN
        &&& self.config.wf()
    }

    /// The result of decoding `det` with the given priors.
    pub open spec fn stage(self, det: Seq<Bit>, priors: Seq<i64>) -> ResultModel {
        let d = BpModel::built(self.matrix, ConfigModel { priors, ..self.min_sum });
        relayed(self.relay.run(self.draws, self.coins, det, d).legs)
    }

    /// The first stage.
    pub open spec fn first(self, det: Seq<Bit>) -> ResultModel {
        self.stage(det, self.min_sum.priors)
    }

    /// A stage after the errors `picked` of the stage before got other priors.
    pub open spec fn again(self, det: Seq<Bit>, picked: Seq<usize>) -> ResultModel {
        self.stage(det, reweighed(self.min_sum.priors, self.reweighted, picked))
    }

    /// The logical class of an estimate.
    pub open spec fn class(self, bits: Seq<Bit>) -> Seq<Bit> {
        self.observables.mul_mod2(bits)
    }

    /// `picked` is a choice of the errors of an estimate.
    pub open spec fn picks(self, bits: Seq<Bit>, picked: Seq<usize>) -> bool {
        self.config.chooses(self.min_sum.priors, errors_of(bits), picked)
    }

    /// The verdict where the errors `second` get other priors in the second stage and the
    /// errors `third` in the third.
    pub open spec fn judged(
        self,
        det: Seq<Bit>,
        second: Seq<usize>,
        third: Seq<usize>,
    ) -> RejectionExtraResult {
        let a = self.first(det);
        let b = self.again(det, second);
        let c = self.again(det, third);
        let priors = self.min_sum.priors;
        verdict(
            self.class(a.decoding),
            decoding_quality(priors, a.decoding),
            b,
            self.class(b.decoding),
            decoding_quality(priors, b.decoding),
            c,
            self.class(c.decoding),
            decoding_quality(priors, c.decoding),
        )
    }

    /// The choices of errors fit the estimates of the stages before. A third stage is run
    /// only where the second found the class of the first.
    pub open spec fn fits(self, det: Seq<Bit>, second: Seq<usize>, third: Seq<usize>) -> bool {
        let a = self.first(det).decoding;
        let b = self.again(det, second).decoding;
        &&& self.picks(a, second)
        &&& self.class(a) == self.class(b) ==> self.picks(b, third)
    }
}

/// A decoder that decodes up to three times and rejects what is not stable.
#[derive(Debug)]
pub struct RejectionDecoder {
    pub check_matrix: SparseBitMatrix,
    pub observable_matrix: SparseBitMatrix,
    pub min_sum_config: MinSumDecoderConfig,
    /// The decoder of the stage that was run last.
    pub relay: RelayDecoder,
    /// The prior ratio of each variable where it is reweighted.
    pub reweighted: Vec<i64>,
    pub config: RejectionConfig,
    /// What was drawn for the legs of every stage.
    pub draws: Vec<RelayDraws>,
    pub coins: Vec<Vec<Vec<bool>>>,
    pub rng: rand::rngs::StdRng,
}

impl View for RejectionDecoder {
    type V = RejectionModel;

    open spec fn view(&self) -> RejectionModel {
        RejectionModel {
            matrix: self.check_matrix@,
            observables: self.observable_matrix@,
            min_sum: self.min_sum_config@,
            relay: self.relay.relay_config,
            reweighted: self.reweighted@,
            config: self.config,
            draws: self.draws@,
            coins: self.coins@,
        }
    }
}

impl RejectionDecoder {
    /// A rejection decoder. A seed of zero is replaced by a random one.
    pub fn new(
        check_matrix: SparseBitMatrix,
        observable_matrix: SparseBitMatrix,
        min_sum_config: MinSumDecoderConfig,
        relay_config: RelayDecoderConfig,
        rejection_config: RejectionConfig,
        reweighted: Vec<i64>,
        draws: Vec<RelayDraws>,
        coins: Vec<Vec<Vec<bool>>>,
    ) -> (r: Self)
        requires
            (RejectionModel {
                matrix: check_matrix@,
                observables: observable_matrix@,
                min_sum: min_sum_config@,
                relay: relay_config,
                reweighted: reweighted@,
                config: rejection_config,
                draws: draws@,
                coins: coins@,
            }).wf(),
        ensures
            r@ == (RejectionModel {
                matrix: check_matrix@,
                observables: observable_matrix@,
                min_sum: min_sum_config@,
                relay: relay_config,
                reweighted: reweighted@,
                config: RejectionConfig { seed: r.config.seed, ..rejection_config },
                draws: draws@,
                coins: coins@,
            }),
            rejection_config.seed != 0 ==> r.config.seed == rejection_config.seed,
    {
        let seed: u64 = if rejection_config.seed == 0 {
            any_seed()
        } else {
            rejection_config.seed
        };
        let relay: RelayDecoder = RelayDecoder::new(
            check_matrix.clone(),
            min_sum_config.clone(),
            relay_config,
        );
        RejectionDecoder {
            check_matrix,
            observable_matrix,
            min_sum_config,
            relay,
            reweighted,
            config: RejectionConfig { seed, ..rejection_config },
            draws,
            coins,
            rng: seeded(seed),
        }
    }

    /// One stage: a new decoder with the given priors decodes the syndrome.
    pub fn run_stage(&mut self, detectors: &Vec<Bit>, priors: Vec<i64>) -> (r: DecodeResult)
        requires
            old(self)@.wf(),
            detectors.len() == old(self)@.matrix.rows,
            priors.len() == old(self)@.matrix.cols,
            forall|v: int| 0 <= v < priors.len() ==> priors[v] > i64::MIN,
        ensures
            final(self)@ == old(self)@,
            r@ == old(self)@.stage(detectors@, priors@),
            r.decoding.len() == old(self)@.matrix.cols,
            r.posterior_ratios.len() == old(self)@.matrix.cols,
            r.success ==> old(self)@.matrix.mul_mod2(r.decoding@) == detectors@,
    {
        let ghost config = ConfigModel { priors: priors@, ..self@.min_sum };
        let mut min_sum_config: MinSumDecoderConfig = self.min_sum_config.clone();
        min_sum_config.log_prior_ratios = priors;
        assert(min_sum_config@ =~= config);
        self.relay.bp_decoder = MinSumBPDecoder::new(self.check_matrix.clone(), min_sum_config);
        self.relay.decode_detailed(detectors, &self.draws, &self.coins)
    }

    /// A stage after one that found the estimate `decoding`: what was chosen of its errors,
    /// and the result.
    fn run_again(&mut self, detectors: &Vec<Bit>, decoding: &Vec<Bit>) -> (r: (
        Ghost<Seq<usize>>,
        DecodeResult,
    ))
        requires
            old(self)@.wf(),
            detectors.len() == old(self)@.matrix.rows,
            decoding.len() == old(self)@.matrix.cols,
        ensures
            final(self)@ == old(self)@,
            old(self)@.picks(decoding@, r.0@),
            r.1@ == old(self)@.again(detectors@, r.0@),
            r.1.decoding.len() == old(self)@.matrix.cols,
    {
        let picked: Vec<usize> = self.config.select_reweight_indices(
            &self.min_sum_config.log_prior_ratios,
            decoding,
            &mut self.rng,
        );
        let priors: Vec<i64> = apply_reweighting(
            &self.min_sum_config.log_prior_ratios,
            &self.reweighted,
            &picked,
        );
        let ghost chosen = picked@;
        let result = self.run_stage(detectors, priors);
        (Ghost(chosen), result)
    }

    /// The verdict on a decoding and what was chosen for the second and third stage.
    fn judge(&mut self, detectors: &Vec<Bit>, first: &DecodeResult) -> (r: (
        Ghost<(Seq<usize>, Seq<usize>)>,
        RejectionExtraResult,
    ))
        requires
            old(self)@.wf(),
            detectors.len() == old(self)@.matrix.rows,
            first@ == old(self)@.first(detectors@),
            first.decoding.len() == old(self)@.matrix.cols,
        ensures
            final(self)@ == old(self)@,
            old(self)@.fits(detectors@, r.0@.0, r.0@.1),
            r.1 == old(self)@.judged(detectors@, r.0@.0, r.0@.1),
    {
        let coset1: Vec<Bit> = self.observable_matrix.mul_mod2(&first.decoding);
        let weight1: i128 = get_decoding_quality(
            &self.min_sum_config.log_prior_ratios,
            &first.decoding,
        );
        let (Ghost(second), result2) = self.run_again(detectors, &first.decoding);
        let coset2: Vec<Bit> = self.observable_matrix.mul_mod2(&result2.decoding);
        let r2_iter: StageIterations = if result2.success {
            StageIterations::Converged(result2.iterations)
        } else {
            StageIterations::Unconverged
        };
        if !same_bits(&coset1, &coset2) {
            let weight2: i128 = get_decoding_quality(
                &self.min_sum_config.log_prior_ratios,
                &result2.decoding,
            );
            let e = RejectionExtraResult {
                r2_iter,
                r3_iter: StageIterations::NotRun,
                r2_class: Some(false),
                r3_class: None,
                reject: 2,
                rejection_gap: Some(difference(weight2, weight1)),
            };
            return (Ghost((second, second)), e);
        }
        let (Ghost(third), result3) = self.run_again(detectors, &result2.decoding);
        let coset3: Vec<Bit> = self.observable_matrix.mul_mod2(&result3.decoding);
        let r3_iter: StageIterations = if result3.success {
            StageIterations::Converged(result3.iterations)
        } else {
            StageIterations::Unconverged
        };
        let same: bool = same_bits(&coset2, &coset3);
        let weight3: i128 = get_decoding_quality(
            &self.min_sum_config.log_prior_ratios,
            &result3.decoding,
        );
        let e = RejectionExtraResult {
            r2_iter,
            r3_iter,
            r2_class: Some(true),
            r3_class: Some(same),
            reject: if same {
                0
            } else {
                3
            },
            rejection_gap: if same {
                None
            } else {
                Some(difference(weight3, weight1))
            },
        };
        (Ghost((second, third)), e)
    }
}

impl Decoder for RejectionDecoder {
    type M = RejectionModel;

    open spec fn model(&self) -> RejectionModel {
        self@
    }

    open spec fn ready(m: RejectionModel) -> bool {
        m.wf()
    }

    open spec fn code(m: RejectionModel) -> MatrixModel {
        m.matrix
    }

    open spec fn weights(m: RejectionModel) -> Seq<i64> {
        m.min_sum.priors
    }

    open spec fn outcome(m: RejectionModel, det: Seq<Bit>) -> ResultModel {
        m.first(det)
    }

    open spec fn noted(m: RejectionModel, det: Seq<Bit>, extra: BPExtraResult) -> bool {
        extra matches BPExtraResult::Rejection(e) && exists|second: Seq<usize>, third: Seq<usize>|
            #[trigger] m.fits(det, second, third) && e == m.judged(det, second, third)
    }

    open spec fn next(m: RejectionModel, det: Seq<Bit>) -> RejectionModel {
        m
    }

    open spec fn lasts(m: RejectionModel, n: nat) -> bool {
        true
    }

    proof fn lemma_ready(m: RejectionModel) {
    }

    proof fn lemma_lasts(m: RejectionModel, det: Seq<Bit>, n: nat) {
    }

    fn can_decode(&self, n: usize) -> (r: bool) {
        true
    }

    fn check_matrix(&self) -> (r: &SparseBitMatrix) {
        &self.check_matrix
    }

    fn log_prior_ratios(&self) -> (r: Vec<i64>) {
        self.min_sum_config.log_prior_ratios.clone()
    }

    fn decode_detailed(&mut self, detectors: &Vec<Bit>) -> (r: DecodeResult) {
        let ghost m = self@;
        let priors: Vec<i64> = self.min_sum_config.log_prior_ratios.clone();
        let mut result: DecodeResult = self.run_stage(detectors, priors);
        let (Ghost(chosen), extra) = self.judge(detectors, &result);
        let ghost before = result@;
        result.extra = BPExtraResult::Rejection(extra);
        proof {
            assert(result@ =~= before);
            assert(m.fits(detectors@, chosen.0, chosen.1));
            assert(Self::noted(m, detectors@, result.extra));
        }
        result
    }
}

} // verus!
