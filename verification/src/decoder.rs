//! Results of decoding and what all decoders share.

use vstd::prelude::*;

use crate::adaptive_relay::AdaptiveRelayTrace;
use crate::disordered_bp::DisorderedBPLegTrace;
use crate::dual_relay::DualRelayTrace;
use crate::ensemble_decoder::EnsembleExtraResult;
use crate::matrix::{Bit, MatrixModel, SparseBitMatrix};
use crate::rejection_decoder::RejectionExtraResult;
use crate::slg_mbp::trace::SLGMBPRuntimeTrace;

verus! {

/// The decoding of one syndrome.
#[derive(Clone, Debug)]
pub struct DecodeResult {
    /// The error estimate.
    pub decoding: Vec<Bit>,
    /// The syndrome of the estimate.
    pub decoded_detectors: Vec<Bit>,
    /// The final ratio of each variable, as a fixed-point number.
    pub posterior_ratios: Vec<i64>,
    /// Whether the syndrome of the estimate is the one that was decoded.
    pub success: bool,
    /// The sum of the prior ratios of the errors of the estimate, or `i128::MAX` where decoding
    /// failed.
    pub decoding_quality: i128,
    /// The number of iterations used.
    pub iterations: usize,
    /// The largest number of iterations that could have been used.
    pub max_iter: usize,
    /// By how much the best estimate of another logical class weighs more, `i128::MAX` if
    /// there is none. Absent where classes were not told apart.
    pub logical_gap: Option<i128>,
    /// What the decoder recorded besides.
    pub extra: BPExtraResult,
}

/// What a result holds besides its trace.
#[verifier::ext_equal]
pub struct ResultModel {
    pub decoding: Seq<Bit>,
    pub decoded_detectors: Seq<Bit>,
    pub posterior: Seq<i64>,
    pub success: bool,
    pub quality: int,
    pub iterations: nat,
    pub max_iter: nat,
    pub gap: Option<i128>,
}

impl View for DecodeResult {
    type V = ResultModel;

    open spec fn view(&self) -> ResultModel {
        ResultModel {
            decoding: self.decoding@,
            decoded_detectors: self.decoded_detectors@,
            posterior: self.posterior_ratios@,
            success: self.success,
            quality: self.decoding_quality as int,
            iterations: self.iterations as nat,
            max_iter: self.max_iter as nat,
            gap: self.logical_gap,
        }
    }
}

/// What a decoder records besides the decoding.
#[derive(Clone, Debug)]
pub enum BPExtraResult {
    /// Nothing.
    NoExtra,
    /// The trace of local bit flipping.
    LBFTrace {
        /// Whether flipping came to rest before the last round.
        converged: bool,
    },
    /// The legs of a decoder that runs in legs.
    RelayTrace(LegTrace),
    /// The legs of a decoder that tries several memory strengths.
    DualRelayTrace(DualRelayTrace),
    /// The legs of a decoder with values of their own for each variable.
    DisorderedBPTrace(Vec<DisorderedBPLegTrace>),
    /// The members of a decoder whose memory strengths follow the posteriors.
    AdaptiveRelayTrace(AdaptiveRelayTrace),
    /// The record of a generational search.
    SLGMBPTrace(SLGMBPRuntimeTrace),
    /// The record of an ensemble.
    Ensemble(EnsembleExtraResult),
    /// The verdict of decoding again with other priors.
    Rejection(RejectionExtraResult),
}

/// How each leg of a decoder ended.
#[derive(Clone, Debug)]
pub struct LegTrace {
    pub leg_success: Vec<bool>,
    pub leg_iterations: Vec<usize>,
    /// The number of negative posteriors.
    pub leg_negative_llr_counts: Vec<usize>,
    pub leg_decodings: Vec<Vec<Bit>>,
    pub leg_posteriors: Vec<Vec<i64>>,
}

/// What is recorded of legs.
#[verifier::ext_equal]
pub struct LegsModel {
    pub success: Seq<bool>,
    pub iterations: Seq<usize>,
    pub negatives: Seq<usize>,
    pub decodings: Seq<Seq<Bit>>,
    pub posteriors: Seq<Seq<i64>>,
}

impl View for LegTrace {
    type V = LegsModel;

    open spec fn view(&self) -> LegsModel {
        LegsModel {
            success: self.leg_success@,
            iterations: self.leg_iterations@,
            negatives: self.leg_negative_llr_counts@,
            decodings: Seq::new(self.leg_decodings@.len(), |l: int| self.leg_decodings@[l]@),
            posteriors: Seq::new(self.leg_posteriors@.len(), |l: int| self.leg_posteriors@[l]@),
        }
    }
}

/// An error where the posterior is negative.
pub open spec fn negative_bits(posterior: Seq<i64>) -> Seq<Bit> {
    Seq::new(
        posterior.len(),
        |v: int| if posterior[v] < 0 { 1 as Bit } else { 0 as Bit },
    )
}

/// An error where the posterior is negative.
pub fn bits_of_negatives(posterior: &Vec<i64>) -> (r: Vec<Bit>)
    ensures
        r@ == negative_bits(posterior@),
{
    let mut out: Vec<Bit> = Vec::new();
    let mut v: usize = 0;
    while v < posterior.len()
        invariant
            v <= posterior.len(),
            out.len() == v,
            forall|u: int| 0 <= u < v ==> out[u] == negative_bits(posterior@)[u],
        decreases posterior.len() - v,
    {
        let bit: Bit = if posterior[v] < 0 {
            1
        } else {
            0
        };
        out.push(bit);
        v += 1;
    }
    assert(out@ =~= negative_bits(posterior@));
    out
}

/// The number of negative values below `n`.
pub open spec fn negatives_below(values: Seq<i64>, n: int) -> nat
    decreases n,
{
    if n <= 0 {
        0
    } else {
        negatives_below(values, n - 1) + if values[n - 1] < 0 {
            1nat
        } else {
            0
        }
    }
}

/// The number of negative values.
pub open spec fn negatives(values: Seq<i64>) -> nat {
    negatives_below(values, values.len() as int)
}

impl LegsModel {
    /// No legs.
    pub open spec fn nothing() -> LegsModel {
        LegsModel {
            success: Seq::empty(),
            iterations: Seq::empty(),
            negatives: Seq::empty(),
            decodings: Seq::empty(),
            posteriors: Seq::empty(),
        }
    }

    /// The record with one more leg.
    pub open spec fn with(self, leg: ResultModel) -> LegsModel {
        LegsModel {
            success: self.success.push(leg.success),
            iterations: self.iterations.push(leg.iterations as usize),
            negatives: self.negatives.push(negatives(leg.posterior) as usize),
            decodings: self.decodings.push(leg.decoding),
            posteriors: self.posteriors.push(leg.posterior),
        }
    }

    /// The record of a list of legs.
    pub open spec fn of(legs: Seq<ResultModel>) -> LegsModel
        decreases legs.len(),
    {
        if legs.len() == 0 {
            LegsModel::nothing()
        } else {
            LegsModel::of(legs.drop_last()).with(legs.last())
        }
    }
}

impl LegTrace {
    /// A record without legs.
    pub fn new() -> (r: Self)
        ensures
            r@ == LegsModel::nothing(),
    {
        let r = LegTrace {
            leg_success: Vec::new(),
            leg_iterations: Vec::new(),
            leg_negative_llr_counts: Vec::new(),
            leg_decodings: Vec::new(),
            leg_posteriors: Vec::new(),
        };
        assert(r@ =~= LegsModel::nothing());
        r
    }

    /// Records a leg.
    pub fn record(&mut self, leg: &DecodeResult)
        ensures
            final(self)@ == old(self)@.with(leg@),
    {
        let ghost before = self@;
        let mut count: usize = 0;
        let mut v: usize = 0;
        while v < leg.posterior_ratios.len()
            invariant
                self@ == before,
                v <= leg.posterior_ratios.len(),
                count <= v,
                count == negatives_below(leg.posterior_ratios@, v as int),
            decreases leg.posterior_ratios.len() - v,
        {
            if leg.posterior_ratios[v] < 0 {
                count = count + 1;
            }
            v += 1;
        }
        self.leg_success.push(leg.success);
        self.leg_iterations.push(leg.iterations);
        self.leg_negative_llr_counts.push(count);
        self.leg_decodings.push(leg.decoding.clone());
        self.leg_posteriors.push(leg.posterior_ratios.clone());
        proof {
            assert(self@.decodings =~= before.decodings.push(leg.decoding@));
            assert(self@.posteriors =~= before.posteriors.push(leg.posterior_ratios@));
            assert(self@ =~= before.with(leg@));
        }
    }
}

/// Recording one leg more than those of a list.
pub proof fn lemma_legs_push(legs: Seq<ResultModel>, leg: ResultModel)
    ensures
        LegsModel::of(legs.push(leg)) == LegsModel::of(legs).with(leg),
{
    assert(legs.push(leg).drop_last() =~= legs);
}

/// The weight of the errors below `n`: the sum of their finite prior ratios.
pub open spec fn quality_below(priors: Seq<i64>, errors: Seq<Bit>, n: int) -> int
    decreases n,
{
    if n <= 0 {
        0
    } else {
        let here = if errors[n - 1] == 1 && priors[n - 1] != i64::MAX {
            priors[n - 1] as int
        } else {
            0
        };
        quality_below(priors, errors, n - 1) + here
    }
}

/// The quality of an error estimate: the sum of the finite prior ratios of its errors.
pub open spec fn decoding_quality(priors: Seq<i64>, errors: Seq<Bit>) -> int {
    quality_below(priors, errors, errors.len() as int)
}

pub proof fn lemma_quality_bound(priors: Seq<i64>, errors: Seq<Bit>, n: int)
    requires
        0 <= n,
    ensures
        -n * 0x8000_0000_0000_0000 <= quality_below(priors, errors, n) <= n * 0x8000_0000_0000_0000,
    decreases n,
{
    if n > 0 {
        lemma_quality_bound(priors, errors, n - 1);
    }
}

/// The quality of an error estimate.
pub fn get_decoding_quality(log_prior_ratios: &Vec<i64>, errors: &Vec<Bit>) -> (r: i128)
    requires
        errors.len() <= log_prior_ratios.len(),
    ensures
        r == decoding_quality(log_prior_ratios@, errors@),
{
    let mut quality: i128 = 0;
    let mut i: usize = 0;
    while i < errors.len()
        invariant
            i <= errors.len() <= log_prior_ratios.len(),
            quality == quality_below(log_prior_ratios@, errors@, i as int),
        decreases errors.len() - i,
    {
        proof {
            lemma_quality_bound(log_prior_ratios@, errors@, i as int);
            assert(i * 0x8000_0000_0000_0000 <= 0x1_0000_0000_0000_0000 * 0x8000_0000_0000_0000
                - 0x8000_0000_0000_0000) by (nonlinear_arith)
                requires
                    i < 0xffff_ffff_ffff_ffff,
            ;
        }
        if errors[i] == 1 && log_prior_ratios[i] != i64::MAX {
            quality = quality + (log_prior_ratios[i] as i128);
        }
        i += 1;
    }
    quality
}

/// Whether two bit vectors agree.
pub fn same_bits(a: &Vec<Bit>, b: &Vec<Bit>) -> (r: bool)
    ensures
        r == (a@ == b@),
{
    if a.len() != b.len() {
        return false;
    }
    let mut i: usize = 0;
    while i < a.len()
        invariant
            i <= a.len() == b.len(),
            forall|k: int| 0 <= k < i ==> a[k] == b[k],
        decreases a.len() - i,
    {
        if a[i] != b[i] {
            return false;
        }
        i += 1;
    }
    assert(a@ =~= b@);
    true
}

/// A vector of zero bits.
pub open spec fn zero_bits(n: nat) -> Seq<Bit> {
    Seq::new(n, |i: int| 0 as Bit)
}

/// Every bit is zero or one.
pub open spec fn are_bits(bits: Seq<Bit>) -> bool {
    forall|v: int| 0 <= v < bits.len() ==> (#[trigger] bits[v]) <= 1
}

/// What the parts of a result say of each other: the syndrome is that of the estimate, and
/// decoding succeeded exactly if it is the one that was decoded.
pub open spec fn consistent(code: MatrixModel, det: Seq<Bit>, r: ResultModel) -> bool {
    &&& r.decoded_detectors == code.mul_mod2(r.decoding)
    &&& r.success <==> r.decoded_detectors == det
}

/// The solutions that a search accepted have one bit for each of `cols` variables.
pub open spec fn accepted_fit(extra: BPExtraResult, cols: nat) -> bool {
    extra matches BPExtraResult::SLGMBPTrace(t) ==> forall|k: int|
        0 <= k < t.accepted_solution_decodings.len() ==> (
        #[trigger] t.accepted_solution_decodings[k]).len() == cols
}

/// A decoder of syndromes. What it holds is told by its model.
pub trait Decoder: Sized {
    /// What a decoder holds.
    type M;

    /// What this decoder holds.
    spec fn model(&self) -> Self::M;

    /// The parts fit each other.
    spec fn ready(m: Self::M) -> bool;

    /// The code.
    spec fn code(m: Self::M) -> MatrixModel;

    /// The prior ratio of each variable, by which estimates are weighed.
    spec fn weights(m: Self::M) -> Seq<i64>;

    /// The result of decoding `det`.
    spec fn outcome(m: Self::M, det: Seq<Bit>) -> ResultModel;

    /// What is recorded in decoding `det`.
    spec fn noted(m: Self::M, det: Seq<Bit>, extra: BPExtraResult) -> bool;

    /// What the decoder holds after decoding `det`.
    spec fn next(m: Self::M, det: Seq<Bit>) -> Self::M;

    /// What was drawn for the decoder suffices for `n` decodings.
    spec fn lasts(m: Self::M, n: nat) -> bool;

    /// The code of a decoder is a code.
    proof fn lemma_ready(m: Self::M)
        requires
            Self::ready(m),
        ensures
            Self::code(m).wf(),
            Self::weights(m).len() == Self::code(m).cols,
    ;

    /// A decoding uses up what was drawn for it and no more.
    proof fn lemma_lasts(m: Self::M, det: Seq<Bit>, n: nat)
        requires
            Self::lasts(m, n),
            n > 0,
        ensures
            Self::lasts(m, 1),
            Self::lasts(Self::next(m, det), (n - 1) as nat),
    ;

    /// The check matrix.
    fn check_matrix(&self) -> (r: &SparseBitMatrix)
        requires
            Self::ready(self.model()),
        ensures
            r@ == Self::code(self.model()),
    ;

    /// The prior ratio of each variable.
    fn log_prior_ratios(&self) -> (r: Vec<i64>)
        requires
            Self::ready(self.model()),
        ensures
            r@ == Self::weights(self.model()),
    ;

    /// Whether what was drawn for the decoder suffices for `n` decodings.
    fn can_decode(&self, n: usize) -> (r: bool)
        ensures
            r == Self::lasts(self.model(), n as nat),
    ;

    /// Decodes a syndrome.
    fn decode_detailed(&mut self, detectors: &Vec<Bit>) -> (r: DecodeResult)
        requires
            Self::ready(old(self).model()),
            Self::lasts(old(self).model(), 1),
            detectors.len() == Self::code(old(self).model()).rows,
        ensures
            Self::ready(final(self).model()),
            final(self).model() == Self::next(old(self).model(), detectors@),
            Self::code(final(self).model()) == Self::code(old(self).model()),
            Self::weights(final(self).model()) == Self::weights(old(self).model()),
            r@ == Self::outcome(old(self).model(), detectors@),
            Self::noted(old(self).model(), detectors@, r.extra),
            r.decoding.len() == Self::code(old(self).model()).cols,
            r.posterior_ratios.len() == Self::code(old(self).model()).cols,
            accepted_fit(r.extra, Self::code(old(self).model()).cols),
            r.success && are_bits(detectors@) ==> Self::code(old(self).model()).mul_mod2(
                r.decoding@,
            ) == detectors@,
    ;

    /// The estimate for a syndrome.
    fn decode(&mut self, detectors: &Vec<Bit>) -> (r: Vec<Bit>)
        requires
            Self::ready(old(self).model()),
            Self::lasts(old(self).model(), 1),
            detectors.len() == Self::code(old(self).model()).rows,
        ensures
            Self::ready(final(self).model()),
            final(self).model() == Self::next(old(self).model(), detectors@),
            Self::code(final(self).model()) == Self::code(old(self).model()),
            Self::weights(final(self).model()) == Self::weights(old(self).model()),
            r@ == Self::outcome(old(self).model(), detectors@).decoding,
    {
        self.decode_detailed(detectors).decoding
    }

    /// The syndrome of errors.
    fn get_detectors(&self, errors: &Vec<Bit>) -> (r: Vec<Bit>)
        requires
            Self::ready(self.model()),
            errors.len() == Self::code(self.model()).cols,
        ensures
            r@ == Self::code(self.model()).mul_mod2(errors@),
    {
        proof {
            Self::lemma_ready(self.model());
        }
        self.check_matrix().mul_mod2(errors)
    }

    /// The syndromes of a list of errors.
    fn get_detectors_batch(&self, errors: &Vec<Vec<Bit>>) -> (r: Vec<Vec<Bit>>)
        requires
            Self::ready(self.model()),
            forall|i: int|
                0 <= i < errors.len() ==> (#[trigger] errors[i]).len() == Self::code(
                    self.model(),
                ).cols,
        ensures
            r.len() == errors.len(),
            forall|i: int|
                0 <= i < r.len() ==> (#[trigger] r[i])@ == Self::code(self.model()).mul_mod2(
                    errors[i]@,
                ),
    {
        let mut out: Vec<Vec<Bit>> = Vec::new();
        let mut i: usize = 0;
        while i < errors.len()
            invariant
                Self::ready(self.model()),
                forall|k: int|
                    0 <= k < errors.len() ==> (#[trigger] errors[k]).len() == Self::code(
                        self.model(),
                    ).cols,
                i <= errors.len(),
                out.len() == i,
                forall|k: int|
                    0 <= k < i ==> (#[trigger] out[k])@ == Self::code(self.model()).mul_mod2(
                        errors[k]@,
                    ),
            decreases errors.len() - i,
        {
            out.push(self.get_detectors(&errors[i]));
            i += 1;
        }
        out
    }

    /// The sum of the prior ratios of errors.
    fn get_decoding_quality(&self, errors: &Vec<Bit>) -> (r: i128)
        requires
            Self::ready(self.model()),
            errors.len() <= Self::code(self.model()).cols,
        ensures
            r == decoding_quality(Self::weights(self.model()), errors@),
    {
        proof {
            Self::lemma_ready(self.model());
        }
        let weights: Vec<i64> = self.log_prior_ratios();
        get_decoding_quality(&weights, errors)
    }
}

/// What was drawn for the legs of one decoding: the values of each leg, and the coins of each
/// iteration of a leg, which count where messages may be dropped.
#[derive(Clone, Debug)]
pub struct LegsDrawn<L> {
    pub draws: Vec<L>,
    pub coins: Vec<Vec<Vec<bool>>>,
}

/// What a decoder holds after the first `n` syndromes of a list.
pub open spec fn after<D: Decoder>(m: D::M, detectors: Seq<Vec<Bit>>, n: nat) -> D::M
    decreases n,
{
    if n == 0 {
        m
    } else {
        D::next(after::<D>(m, detectors, (n - 1) as nat), detectors[n - 1]@)
    }
}

/// Decoding of many syndromes.
pub trait DecoderRunner: Decoder {
    /// The results for syndromes that are decoded one after the other.
    fn decode_detailed_batch(&mut self, detectors: &Vec<Vec<Bit>>) -> (r: Vec<DecodeResult>)
        requires
            Self::ready(old(self).model()),
            Self::lasts(old(self).model(), detectors@.len()),
            forall|i: int|
                0 <= i < detectors.len() ==> (#[trigger] detectors[i]).len() == Self::code(
                    old(self).model(),
                ).rows,
        ensures
            Self::ready(final(self).model()),
            final(self).model() == after::<Self>(
                old(self).model(),
                detectors@,
                detectors@.len(),
            ),
            r.len() == detectors.len(),
            forall|i: int|
                0 <= i < r.len() ==> (#[trigger] r[i])@ == Self::outcome(
                    after::<Self>(old(self).model(), detectors@, i as nat),
                    detectors[i]@,
                ),
    {
        let ghost start = self.model();
        let mut out: Vec<DecodeResult> = Vec::new();
        let mut i: usize = 0;
        while i < detectors.len()
            invariant
                Self::ready(self.model()),
                i <= detectors.len(),
                Self::lasts(self.model(), (detectors.len() - i) as nat),
                Self::code(self.model()) == Self::code(start),
                forall|k: int|
                    0 <= k < detectors.len() ==> (#[trigger] detectors[k]).len() == Self::code(
                        start,
                    ).rows,
                self.model() == after::<Self>(start, detectors@, i as nat),
                out.len() == i,
                forall|k: int|
                    0 <= k < i ==> (#[trigger] out[k])@ == Self::outcome(
                        after::<Self>(start, detectors@, k as nat),
                        detectors[k]@,
                    ),
            decreases detectors.len() - i,
        {
            proof {
                let left = (detectors.len() - i) as nat;
                Self::lemma_lasts(self.model(), detectors[i as int]@, left);
            }
            let r = self.decode_detailed(&detectors[i]);
            out.push(r);
            i += 1;
        }
        out
    }

    /// The estimates for syndromes that are decoded one after the other.
    fn decode_batch(&mut self, detectors: &Vec<Vec<Bit>>) -> (r: Vec<Vec<Bit>>)
        requires
            Self::ready(old(self).model()),
            Self::lasts(old(self).model(), detectors@.len()),
            forall|i: int|
                0 <= i < detectors.len() ==> (#[trigger] detectors[i]).len() == Self::code(
                    old(self).model(),
                ).rows,
        ensures
            Self::ready(final(self).model()),
            final(self).model() == after::<Self>(
                old(self).model(),
                detectors@,
                detectors@.len(),
            ),
            r.len() == detectors.len(),
            forall|i: int|
                0 <= i < r.len() ==> (#[trigger] r[i])@ == Self::outcome(
                    after::<Self>(old(self).model(), detectors@, i as nat),
                    detectors[i]@,
                ).decoding,
    {
        let ghost start = self.model();
        let mut out: Vec<Vec<Bit>> = Vec::new();
        let mut i: usize = 0;
        while i < detectors.len()
            invariant
                Self::ready(self.model()),
                i <= detectors.len(),
                Self::lasts(self.model(), (detectors.len() - i) as nat),
                Self::code(self.model()) == Self::code(start),
                forall|k: int|
                    0 <= k < detectors.len() ==> (#[trigger] detectors[k]).len() == Self::code(
                        start,
                    ).rows,
                self.model() == after::<Self>(start, detectors@, i as nat),
                out.len() == i,
                forall|k: int|
                    0 <= k < i ==> (#[trigger] out[k])@ == Self::outcome(
                        after::<Self>(start, detectors@, k as nat),
                        detectors[k]@,
                    ).decoding,
            decreases detectors.len() - i,
        {
            proof {
                let left = (detectors.len() - i) as nat;
                Self::lemma_lasts(self.model(), detectors[i as int]@, left);
            }
            let r = self.decode(&detectors[i]);
            out.push(r);
            i += 1;
        }
        out
    }
}

impl<D: Decoder> DecoderRunner for D {

}

} // verus!
