//! Decoding of logical observables.

use vstd::prelude::*;
use vstd::string::StringExecFns;

use crate::arith::bound;
use crate::decoder::{
    accepted_fit, after, decoding_quality, same_bits, BPExtraResult, DecodeResult, Decoder,
    ResultModel,
};
use crate::ensemble_decoder::{
    bit_rows, difference, find_least, first_least, lemma_first_least, mark_class, of_class,
};
use crate::matrix::{Bit, MatrixModel, SparseBitMatrix};
use crate::slg_mbp::trace::SLGMBPRuntimeTrace;
use crate::text::{format_numeric_gap, gap_text};

verus! {

/// How a decoding compares with the errors that happened.
#[derive(Clone, Copy, Debug, PartialEq, Eq, Structural)]
pub struct TrueDecodingResults {
    /// The estimate differs from the errors in its observables.
    pub error_detected: bool,
    /// The estimate differs from the errors.
    pub error_mismatch_detected: bool,
    /// The decoder failed but got the observables right.
    pub unconverged_no_error: bool,
    /// The observables are wrong and the quality of the estimate is higher than that of the
    /// errors.
    pub better_decoding_quality_error: bool,
    /// The observables are wrong and the quality of the estimate is not higher than that of
    /// the errors.
    pub worse_decoding_quality_error: bool,
}

/// The decoding of the observables of one syndrome.
#[derive(Clone, Debug)]
pub struct ObservableDecodeResult {
    pub observables: Vec<Bit>,
    pub converged: bool,
    pub iterations: usize,
    /// Whether the decoding is to be counted as a logical error in any case.
    pub force_logical_error: bool,
    /// How clear the decision was, as text.
    pub confidence_score_token: Option<String>,
    /// How the decoding compares with the errors, where they are known.
    pub true_decoding: Option<TrueDecodingResults>,
    /// The result of the decoder, if it is to be kept.
    pub physical_decode_result: Option<DecodeResult>,
}

/// What the decoding of observables holds besides the result of the decoder.
#[verifier::ext_equal]
pub struct ObservedModel {
    pub observables: Seq<Bit>,
    pub converged: bool,
    pub iterations: usize,
    pub force_logical_error: bool,
    pub token: Option<Seq<char>>,
    pub truth: Option<TrueDecodingResults>,
}

impl View for ObservableDecodeResult {
    type V = ObservedModel;

    open spec fn view(&self) -> ObservedModel {
        ObservedModel {
            observables: self.observables@,
            converged: self.converged,
            iterations: self.iterations,
            force_logical_error: self.force_logical_error,
            token: match self.confidence_score_token {
                Some(t) => Some(t@),
                None => None,
            },
            truth: self.true_decoding,
        }
    }
}

/// The logical class of each estimate of a list.
pub open spec fn classes(observables: MatrixModel, decodings: Seq<Seq<Bit>>) -> Seq<Seq<Bit>> {
    Seq::new(decodings.len(), |k: int| observables.mul_mod2(decodings[k]))
}

/// A mark for each of `n` places.
pub open spec fn all_marked(n: nat) -> Seq<bool> {
    Seq::new(n, |k: int| true)
}

/// By how much the lightest of the values of another kind than the lightest of all exceeds
/// it, if there are two kinds.
pub open spec fn second_gap(kinds: Seq<Seq<Bit>>, weights: Seq<i128>) -> Option<int> {
    let n = weights.len();
    match first_least(weights, all_marked(n), n as int) {
        None => None,
        Some(a) => match first_least(
            weights,
            of_class(kinds, all_marked(n), kinds[a], false),
            n as int,
        ) {
            None => None,
            Some(b) => Some(bound(weights[b] - weights[a], i128::MAX as int)),
        },
    }
}

/// How clear the decision between solutions is: by the lightest of another logical class,
/// else, behind an `s`, by the lightest other solution.
pub open spec fn clarity(
    observables: MatrixModel,
    decodings: Seq<Seq<Bit>>,
    weights: Seq<i128>,
    one: int,
) -> Seq<char> {
    match second_gap(classes(observables, decodings), weights) {
        Some(g) => gap_text(g, one),
        None => match second_gap(decodings, weights) {
            Some(g) => "s"@ + gap_text(g, one),
            None => "inf"@,
        },
    }
}

/// The number of solutions that a search accepted.
pub open spec fn accepted_count(extra: BPExtraResult) -> nat {
    match extra {
        BPExtraResult::SLGMBPTrace(t) => if t.accepted_solution_decodings.len()
            == t.accepted_solution_weights.len() {
            t.accepted_solution_decodings@.len()
        } else {
            0
        },
        _ => 0,
    }
}

/// The text that tells how clear a decision was: zero if the decoder failed, absent if it
/// did not search.
pub open spec fn token(
    observables: MatrixModel,
    success: bool,
    extra: BPExtraResult,
    one: int,
) -> Option<Seq<char>> {
    if !success {
        Some("0.0"@)
    } else if accepted_count(extra) == 0 {
        None
    } else {
        match extra {
            BPExtraResult::SLGMBPTrace(t) => Some(
                clarity(
                    observables,
                    bit_rows(t.accepted_solution_decodings@),
                    t.accepted_solution_weights@,
                    one,
                ),
            ),
            _ => None,
        }
    }
}

/// Whether a decoder came to rest: what it records of that, or its success.
pub open spec fn came_to_rest(success: bool, extra: BPExtraResult) -> bool {
    match extra {
        BPExtraResult::LBFTrace { converged } => converged,
        _ => success,
    }
}

/// How a decoding compares with the errors that happened.
pub open spec fn compared(
    observables: MatrixModel,
    weights: Seq<i64>,
    errors: Seq<Bit>,
    r: ResultModel,
) -> TrueDecodingResults {
    let wrong = observables.mul_mod2(errors) != observables.mul_mod2(r.decoding);
    let higher = r.quality > decoding_quality(weights, errors);
    TrueDecodingResults {
        error_detected: wrong,
        error_mismatch_detected: errors != r.decoding,
        unconverged_no_error: !wrong && !r.success,
        better_decoding_quality_error: wrong && higher,
        worse_decoding_quality_error: wrong && !higher,
    }
}

/// The five flags are consistent: exactly one of the two kinds of logical error is told where
/// the observables are wrong, none of them where they are right, and only a decoding that
/// differs from the errors has wrong observables.
pub proof fn law_flags_consistent(
    observables: MatrixModel,
    weights: Seq<i64>,
    errors: Seq<Bit>,
    r: ResultModel,
)
    ensures
        ({
            let t = compared(observables, weights, errors, r);
            &&& t.error_detected <==> (t.better_decoding_quality_error
                != t.worse_decoding_quality_error)
            &&& !(t.better_decoding_quality_error && t.worse_decoding_quality_error)
            &&& t.error_detected ==> t.error_mismatch_detected && !t.unconverged_no_error
        }),
{
}

/// A decoder of observables.
#[derive(Clone, Debug)]
pub struct ObservableDecoderRunner<D: Decoder> {
    pub decoder: D,
    pub observable_error_matrix: SparseBitMatrix,
    /// Whether the result of the decoder is kept.
    pub include_decode_result: bool,
    /// The unit of the weights.
    pub unit: i64,
}

/// The two lightest values of different kinds, if there are any.
fn find_second_gap(kinds: &Vec<Vec<Bit>>, weights: &Vec<i128>) -> (r: Option<i128>)
    requires
        kinds.len() == weights.len(),
    ensures
        (match r {
            Some(g) => Some(g as int),
            None => None,
        }) == second_gap(bit_rows(kinds@), weights@),
        r matches Some(g) ==> g >= 0,
{
    let ghost rows = bit_rows(kinds@);
    let all: Vec<bool> = vec![true; weights.len()];
    assert(all@ =~= all_marked(weights@.len()));
    proof {
        lemma_first_least(weights@, all@, all@.len() as int);
    }
    match find_least(weights, &all) {
        None => None,
        Some(a) => {
            assert(rows[a as int] == kinds[a as int]@);
            let others: Vec<bool> = mark_class(kinds, &all, &kinds[a], false);
            match find_least(weights, &others) {
                None => None,
                Some(b) => {
                    assert(all@[b as int]);
                    Some(difference(weights[b], weights[a]))
                },
            }
        },
    }
}

impl<D: Decoder> ObservableDecoderRunner<D> {
    /// The parts fit each other.
    pub open spec fn wf(self) -> bool {
        &&& D::ready(self.decoder.model())
        &&& self.observable_error_matrix@.wf()
        &&& self.observable_error_matrix@.cols == D::code(self.decoder.model()).cols
        &&& 1 <= self.unit <= 0x2000_0000_0000_0000
    }

    /// All but the decoder is as in `other`.
    pub open spec fn same_setup(self, other: Self) -> bool {
        &&& self.observable_error_matrix == other.observable_error_matrix
        &&& self.include_decode_result == other.include_decode_result
        &&& self.unit == other.unit
    }

    /// What is told of a result, with the errors if they are known. The observables are those
    /// of the errors if they are known, else those of the estimate.
    pub open spec fn observed(self, model: D::M, errors: Option<Seq<Bit>>, r: DecodeResult) -> ObservedModel {
        let m = self.observable_error_matrix@;
        ObservedModel {
            observables: match errors {
                Some(e) => m.mul_mod2(e),
                None => m.mul_mod2(r.decoding@),
            },
            converged: came_to_rest(r.success, r.extra),
            iterations: r.iterations,
            force_logical_error: !r.success && accepted_count(r.extra) == 0,
            token: token(m, r.success, r.extra, self.unit as int),
            truth: match errors {
                Some(e) => Some(compared(m, D::weights(model), e, r@)),
                None => None,
            },
        }
    }

    /// `out` tells of the decoding of `det` by a decoder that holds `model`: of a result that
    /// it can give, which is kept if it is to be.
    pub open spec fn tells(
        self,
        model: D::M,
        det: Seq<Bit>,
        errors: Option<Seq<Bit>>,
        out: ObservableDecodeResult,
    ) -> bool {
        exists|r: DecodeResult|
            {
                &&& r@ == D::outcome(model, det)
                &&& D::noted(model, det, r.extra)
                &&& out@ == #[trigger] self.observed(model, errors, r)
                &&& out.physical_decode_result == (if self.include_decode_result {
                    Some(r)
                } else {
                    None
                })
            }
    }

    /// A decoder of the observables that `observable_error_matrix` tells.
    pub fn new(
        decoder: D,
        observable_error_matrix: SparseBitMatrix,
        include_decode_result: bool,
        unit: i64,
    ) -> (r: Self)
        ensures
            r.decoder == decoder,
            r.observable_error_matrix == observable_error_matrix,
            r.include_decode_result == include_decode_result,
            r.unit == unit,
    {
        ObservableDecoderRunner { decoder, observable_error_matrix, include_decode_result, unit }
    }

    /// The decoder, to be changed.
    pub fn get_decoder_mut(&mut self) -> (r: &mut D)
        ensures
            *r == old(self).decoder,
            *final(self) == (ObservableDecoderRunner { decoder: *final(r), ..*old(self) }),
    {
        &mut self.decoder
    }

    /// The decoder.
    pub fn get_decoder(&self) -> (r: &D)
        ensures
            *r == self.decoder,
    {
        &self.decoder
    }

    /// The observables of errors.
    pub fn compute_observables(&self, errors: &Vec<Bit>) -> (r: Vec<Bit>)
        requires
            self.wf(),
            errors.len() == self.observable_error_matrix@.cols,
        ensures
            r@ == self.observable_error_matrix@.mul_mod2(errors@),
    {
        self.observable_error_matrix.mul_mod2(errors)
    }

    /// Decodes the observables of a syndrome.
    pub fn decode_observables(&mut self, detectors: &Vec<Bit>) -> (r: Vec<Bit>)
        requires
            old(self).wf(),
            D::lasts(old(self).decoder.model(), 1),
            detectors.len() == D::code(old(self).decoder.model()).rows,
        ensures
            final(self).wf(),
            final(self).same_setup(*old(self)),
            final(self).decoder.model() == D::next(old(self).decoder.model(), detectors@),
            D::code(final(self).decoder.model()) == D::code(old(self).decoder.model()),
            r@ == old(self).observable_error_matrix@.mul_mod2(
                D::outcome(old(self).decoder.model(), detectors@).decoding,
            ),
    {
        let r = self.decoder.decode_detailed(detectors);
        self.compute_observables(&r.decoding)
    }

    /// The number of solutions that a search accepted.
    fn accepted_solution_count(&self, decode_result: &DecodeResult) -> (r: usize)
        ensures
            r == accepted_count(decode_result.extra),
    {
        match &decode_result.extra {
            BPExtraResult::SLGMBPTrace(t) => {
                if t.accepted_solution_decodings.len() == t.accepted_solution_weights.len() {
                    t.accepted_solution_decodings.len()
                } else {
                    0
                }
            },
            _ => 0,
        }
    }

    /// Whether the decoder came to rest.
    fn detailed_converged(&self, decode_result: &DecodeResult) -> (r: bool)
        ensures
            r == came_to_rest(decode_result.success, decode_result.extra),
    {
        match &decode_result.extra {
            BPExtraResult::LBFTrace { converged } => *converged,
            _ => decode_result.success,
        }
    }

    /// Whether a decoding is to be counted as a logical error in any case.
    fn force_logical_error(&self, decode_result: &DecodeResult) -> (r: bool)
        ensures
            r == (!decode_result.success && accepted_count(decode_result.extra) == 0),
    {
        !decode_result.success && self.accepted_solution_count(decode_result) == 0
    }

    /// How clear the decision between accepted solutions is.
    fn clarity_of(&self, t: &SLGMBPRuntimeTrace) -> (r: String)
        requires
            self.wf(),
            t.accepted_solution_decodings.len() == t.accepted_solution_weights.len(),
            forall|k: int|
                0 <= k < t.accepted_solution_decodings.len() ==> (
                #[trigger] t.accepted_solution_decodings[k]).len()
                    == self.observable_error_matrix@.cols,
        ensures
            r@ == clarity(
                self.observable_error_matrix@,
                bit_rows(t.accepted_solution_decodings@),
                t.accepted_solution_weights@,
                self.unit as int,
            ),
    {
        let ghost rows = bit_rows(t.accepted_solution_decodings@);
        let mut kinds: Vec<Vec<Bit>> = Vec::new();
        let mut k: usize = 0;
        while k < t.accepted_solution_decodings.len()
            invariant
                self.wf(),
                rows == bit_rows(t.accepted_solution_decodings@),
                forall|j: int|
                    0 <= j < t.accepted_solution_decodings.len() ==> (
                    #[trigger] t.accepted_solution_decodings[j]).len()
                        == self.observable_error_matrix@.cols,
                k <= t.accepted_solution_decodings.len(),
                kinds.len() == k,
                forall|j: int|
                    0 <= j < k ==> (#[trigger] kinds[j])@ == classes(
                        self.observable_error_matrix@,
                        rows,
                    )[j],
            decreases t.accepted_solution_decodings.len() - k,
        {
            assert(rows[k as int] == t.accepted_solution_decodings[k as int]@);
            let class: Vec<Bit> = self.compute_observables(&t.accepted_solution_decodings[k]);
            kinds.push(class);
            k += 1;
        }
        assert(bit_rows(kinds@) =~= classes(self.observable_error_matrix@, rows));
        match find_second_gap(&kinds, &t.accepted_solution_weights) {
            Some(gap) => format_numeric_gap(gap, self.unit),
            None => match find_second_gap(
                &t.accepted_solution_decodings,
                &t.accepted_solution_weights,
            ) {
                Some(gap) => {
                    let mut out: String = String::from_str("s");
                    let text: String = format_numeric_gap(gap, self.unit);
                    out.append(text.as_str());
                    out
                },
                None => String::from_str("inf"),
            },
        }
    }

    /// The text that tells how clear a decision was.
    pub fn compute_confidence_score_token(&self, decode_result: &DecodeResult) -> (r: Option<String>)
        requires
            self.wf(),
            accepted_fit(decode_result.extra, self.observable_error_matrix@.cols),
        ensures
            (match r {
                Some(t) => Some(t@),
                None => None,
            }) == token(
                self.observable_error_matrix@,
                decode_result.success,
                decode_result.extra,
                self.unit as int,
            ),
    {
        if !decode_result.success {
            return Some(String::from_str("0.0"));
        }
        match &decode_result.extra {
            BPExtraResult::SLGMBPTrace(t) => {
                if t.accepted_solution_decodings.len() > 0 && t.accepted_solution_decodings.len()
                    == t.accepted_solution_weights.len() {
                    Some(self.clarity_of(t))
                } else {
                    None
                }
            },
            _ => None,
        }
    }

    /// Tells of a result of the decoder.
    pub fn observe(&self, decode_result: DecodeResult) -> (r: ObservableDecodeResult)
        requires
            self.wf(),
            decode_result.decoding.len() == self.observable_error_matrix@.cols,
            accepted_fit(decode_result.extra, self.observable_error_matrix@.cols),
        ensures
            r@ == self.observed(self.decoder.model(), None, decode_result),
            r.physical_decode_result == (if self.include_decode_result {
                Some(decode_result)
            } else {
                None
            }),
    {
        let observables: Vec<Bit> = self.compute_observables(&decode_result.decoding);
        let converged: bool = self.detailed_converged(&decode_result);
        let force_logical_error: bool = self.force_logical_error(&decode_result);
        let confidence_score_token: Option<String> = self.compute_confidence_score_token(
            &decode_result,
        );
        let iterations: usize = decode_result.iterations;
        let ghost given = decode_result;
        let physical_decode_result: Option<DecodeResult> = if self.include_decode_result {
            Some(decode_result)
        } else {
            None
        };
        let r = ObservableDecodeResult {
            observables,
            converged,
            iterations,
            force_logical_error,
            confidence_score_token,
            true_decoding: None,
            physical_decode_result,
        };
        assert(r@ =~= self.observed(self.decoder.model(), None, given));
        r
    }

    /// Tells of a result of the decoder where the errors are known.
    pub fn observe_errors(&self, errors: &Vec<Bit>, decode_result: DecodeResult) -> (r:
        ObservableDecodeResult)
        requires
            self.wf(),
            errors.len() == self.observable_error_matrix@.cols,
            decode_result.decoding.len() == self.observable_error_matrix@.cols,
            accepted_fit(decode_result.extra, self.observable_error_matrix@.cols),
        ensures
            r@ == self.observed(self.decoder.model(), Some(errors@), decode_result),
            r.physical_decode_result == (if self.include_decode_result {
                Some(decode_result)
            } else {
                None
            }),
    {
        let observables: Vec<Bit> = self.compute_observables(errors);
        let decoded: Vec<Bit> = self.compute_observables(&decode_result.decoding);
        let error_detected: bool = !same_bits(&observables, &decoded);
        let error_mismatch_detected: bool = !same_bits(errors, &decode_result.decoding);
        let higher: bool = decode_result.decoding_quality > self.decoder.get_decoding_quality(
            errors,
        );
        let truth = TrueDecodingResults {
            error_detected,
            error_mismatch_detected,
            unconverged_no_error: !error_detected && !decode_result.success,
            better_decoding_quality_error: error_detected && higher,
            worse_decoding_quality_error: error_detected && !higher,
        };
        let ghost given = decode_result;
        let r = self.observe(decode_result);
        let out = ObservableDecodeResult { observables, true_decoding: Some(truth), ..r };
        assert(out@ =~= self.observed(self.decoder.model(), Some(errors@), given));
        out
    }

    /// Decodes the observables of a syndrome and tells of it.
    pub fn decode_observables_detailed(&mut self, detectors: &Vec<Bit>) -> (r:
        ObservableDecodeResult)
        requires
            old(self).wf(),
            D::lasts(old(self).decoder.model(), 1),
            detectors.len() == D::code(old(self).decoder.model()).rows,
        ensures
            final(self).wf(),
            final(self).same_setup(*old(self)),
            final(self).decoder.model() == D::next(old(self).decoder.model(), detectors@),
            D::code(final(self).decoder.model()) == D::code(old(self).decoder.model()),
            old(self).tells(old(self).decoder.model(), detectors@, None, r),
    {
        let ghost before = *self;
        let result = self.decoder.decode_detailed(detectors);
        let ghost given = result;
        let r = self.observe(result);
        assert(self.observed(self.decoder.model(), None, given) == before.observed(
            before.decoder.model(),
            None,
            given,
        ));
        r
    }

    /// Decodes the observables of the syndrome of errors.
    pub fn from_errors_decode_observables(&mut self, errors: &Vec<Bit>) -> (r: Vec<Bit>)
        requires
            old(self).wf(),
            D::lasts(old(self).decoder.model(), 1),
            errors.len() == D::code(old(self).decoder.model()).cols,
        ensures
            final(self).wf(),
            final(self).same_setup(*old(self)),
            ({
                let m = old(self).decoder.model();
                let det = D::code(m).mul_mod2(errors@);
                &&& final(self).decoder.model() == D::next(m, det)
                &&& D::code(final(self).decoder.model()) == D::code(m)
                &&& r@ == old(self).observable_error_matrix@.mul_mod2(D::outcome(m, det).decoding)
            }),
    {
        proof {
            D::lemma_ready(self.decoder.model());
        }
        let detectors: Vec<Bit> = self.decoder.get_detectors(errors);
        self.decode_observables(&detectors)
    }

    /// Decodes the syndrome of errors and tells how the decoding compares with them.
    pub fn from_errors_decode_observables_detailed(&mut self, errors: &Vec<Bit>) -> (r:
        ObservableDecodeResult)
        requires
            old(self).wf(),
            D::lasts(old(self).decoder.model(), 1),
            errors.len() == D::code(old(self).decoder.model()).cols,
        ensures
            final(self).wf(),
            final(self).same_setup(*old(self)),
            ({
                let m = old(self).decoder.model();
                let det = D::code(m).mul_mod2(errors@);
                &&& final(self).decoder.model() == D::next(m, det)
                &&& D::code(final(self).decoder.model()) == D::code(m)
                &&& old(self).tells(m, det, Some(errors@), r)
            }),
    {
        let ghost before = *self;
        proof {
            D::lemma_ready(self.decoder.model());
        }
        let detectors: Vec<Bit> = self.decoder.get_detectors(errors);
        let result = self.decoder.decode_detailed(&detectors);
        let ghost given = result;
        let r = self.observe_errors(errors, result);
        assert(self.observed(self.decoder.model(), Some(errors@), given) == before.observed(
            before.decoder.model(),
            Some(errors@),
            given,
        ));
        r
    }

    /// Decodes the observables of syndromes one after the other.
    pub fn decode_observables_batch(&mut self, detectors: &Vec<Vec<Bit>>) -> (r: Vec<Vec<Bit>>)
        requires
            old(self).wf(),
            D::lasts(old(self).decoder.model(), detectors@.len()),
            forall|i: int|
                0 <= i < detectors.len() ==> (#[trigger] detectors[i]).len() == D::code(
                    old(self).decoder.model(),
                ).rows,
        ensures
            final(self).wf(),
            final(self).same_setup(*old(self)),
            final(self).decoder.model() == after::<D>(
                old(self).decoder.model(),
                detectors@,
                detectors@.len(),
            ),
            r.len() == detectors.len(),
            forall|i: int|
                0 <= i < r.len() ==> (#[trigger] r[i])@ == old(
                    self,
                ).observable_error_matrix@.mul_mod2(
                    D::outcome(
                        after::<D>(old(self).decoder.model(), detectors@, i as nat),
                        detectors[i]@,
                    ).decoding,
                ),
    {
        let ghost start = self.decoder.model();
        let mut out: Vec<Vec<Bit>> = Vec::new();
        let mut i: usize = 0;
        while i < detectors.len()
            invariant
                self.wf(),
                i <= detectors.len(),
                D::lasts(self.decoder.model(), (detectors.len() - i) as nat),
                self.same_setup(*old(self)),
                D::code(self.decoder.model()) == D::code(start),
                forall|k: int|
                    0 <= k < detectors.len() ==> (#[trigger] detectors[k]).len() == D::code(
                        start,
                    ).rows,
                self.decoder.model() == after::<D>(start, detectors@, i as nat),
                out.len() == i,
                forall|k: int|
                    0 <= k < i ==> (#[trigger] out[k])@ == old(
                        self,
                    ).observable_error_matrix@.mul_mod2(
                        D::outcome(after::<D>(start, detectors@, k as nat), detectors[k]@).decoding,
                    ),
            decreases detectors.len() - i,
        {
            proof {
                let left = (detectors.len() - i) as nat;
                D::lemma_lasts(self.decoder.model(), detectors[i as int]@, left);
            }
            let r: Vec<Bit> = self.decode_observables(&detectors[i]);
            out.push(r);
            i += 1;
        }
        out
    }

    /// Decodes the observables of syndromes one after the other and tells of each.
    pub fn decode_observables_detailed_batch(&mut self, detectors: &Vec<Vec<Bit>>) -> (r: Vec<
        ObservableDecodeResult,
    >)
        requires
            old(self).wf(),
            D::lasts(old(self).decoder.model(), detectors@.len()),
            forall|i: int|
                0 <= i < detectors.len() ==> (#[trigger] detectors[i]).len() == D::code(
                    old(self).decoder.model(),
                ).rows,
        ensures
            final(self).wf(),
            final(self).same_setup(*old(self)),
            final(self).decoder.model() == after::<D>(
                old(self).decoder.model(),
                detectors@,
                detectors@.len(),
            ),
            r.len() == detectors.len(),
            forall|i: int|
                0 <= i < r.len() ==> old(self).tells(
                    after::<D>(old(self).decoder.model(), detectors@, i as nat),
                    detectors[i]@,
                    None,
                    #[trigger] r[i],
                ),
    {
        let ghost start = self.decoder.model();
        let ghost first = *self;
        let mut out: Vec<ObservableDecodeResult> = Vec::new();
        let mut i: usize = 0;
        while i < detectors.len()
            invariant
                self.wf(),
                i <= detectors.len(),
                D::lasts(self.decoder.model(), (detectors.len() - i) as nat),
                first == *old(self),
                self.same_setup(first),
                D::code(self.decoder.model()) == D::code(start),
                forall|k: int|
                    0 <= k < detectors.len() ==> (#[trigger] detectors[k]).len() == D::code(
                        start,
                    ).rows,
                self.decoder.model() == after::<D>(start, detectors@, i as nat),
                out.len() == i,
                forall|k: int|
                    0 <= k < i ==> first.tells(
                        after::<D>(start, detectors@, k as nat),
                        detectors[k]@,
                        None,
                        #[trigger] out[k],
                    ),
            decreases detectors.len() - i,
        {
            let ghost before = *self;
            proof {
                let left = (detectors.len() - i) as nat;
                D::lemma_lasts(self.decoder.model(), detectors[i as int]@, left);
            }
            let r = self.decode_observables_detailed(&detectors[i]);
            proof {
                lemma_tells_same(before, first, before.decoder.model(), detectors[i as int]@, None, r);
            }
            out.push(r);
            i += 1;
        }
        out
    }

    /// Decodes the observables of the syndromes of errors one after the other.
    pub fn from_errors_decode_observables_batch(&mut self, errors: &Vec<Vec<Bit>>) -> (r: Vec<
        Vec<Bit>,
    >)
        requires
            old(self).wf(),
            D::lasts(old(self).decoder.model(), errors@.len()),
            forall|i: int|
                0 <= i < errors.len() ==> (#[trigger] errors[i]).len() == D::code(
                    old(self).decoder.model(),
                ).cols,
        ensures
            final(self).wf(),
            final(self).same_setup(*old(self)),
            final(self).decoder.model() == after_errors::<D>(
                old(self).decoder.model(),
                errors@,
                errors@.len(),
            ),
            r.len() == errors.len(),
            forall|i: int|
                0 <= i < r.len() ==> (#[trigger] r[i])@ == old(
                    self,
                ).observable_error_matrix@.mul_mod2(
                    D::outcome(
                        after_errors::<D>(old(self).decoder.model(), errors@, i as nat),
                        D::code(old(self).decoder.model()).mul_mod2(errors[i]@),
                    ).decoding,
                ),
    {
        let ghost start = self.decoder.model();
        let mut out: Vec<Vec<Bit>> = Vec::new();
        let mut i: usize = 0;
        while i < errors.len()
            invariant
                self.wf(),
                i <= errors.len(),
                D::lasts(self.decoder.model(), (errors.len() - i) as nat),
                self.same_setup(*old(self)),
                D::code(self.decoder.model()) == D::code(start),
                forall|k: int|
                    0 <= k < errors.len() ==> (#[trigger] errors[k]).len() == D::code(start).cols,
                self.decoder.model() == after_errors::<D>(start, errors@, i as nat),
                out.len() == i,
                forall|k: int|
                    0 <= k < i ==> (#[trigger] out[k])@ == old(
                        self,
                    ).observable_error_matrix@.mul_mod2(
                        D::outcome(
                            after_errors::<D>(start, errors@, k as nat),
                            D::code(start).mul_mod2(errors[k]@),
                        ).decoding,
                    ),
            decreases errors.len() - i,
        {
            proof {
                let left = (errors.len() - i) as nat;
                D::lemma_lasts(self.decoder.model(), D::code(start).mul_mod2(errors[i as int]@), left);
            }
            let r: Vec<Bit> = self.from_errors_decode_observables(&errors[i]);
            out.push(r);
            i += 1;
        }
        out
    }

    /// Decodes the syndromes of errors one after the other and tells how each decoding
    /// compares with them.
    pub fn from_errors_decode_observables_detailed_batch(&mut self, errors: &Vec<Vec<Bit>>) -> (r:
        Vec<ObservableDecodeResult>)
        requires
            old(self).wf(),
            D::lasts(old(self).decoder.model(), errors@.len()),
            forall|i: int|
                0 <= i < errors.len() ==> (#[trigger] errors[i]).len() == D::code(
                    old(self).decoder.model(),
                ).cols,
        ensures
            final(self).wf(),
            final(self).same_setup(*old(self)),
            final(self).decoder.model() == after_errors::<D>(
                old(self).decoder.model(),
                errors@,
                errors@.len(),
            ),
            r.len() == errors.len(),
            forall|i: int|
                0 <= i < r.len() ==> old(self).tells(
                    after_errors::<D>(old(self).decoder.model(), errors@, i as nat),
                    D::code(old(self).decoder.model()).mul_mod2(errors[i]@),
                    Some(errors[i]@),
                    #[trigger] r[i],
                ),
    {
        let ghost start = self.decoder.model();
        let ghost first = *self;
        let mut out: Vec<ObservableDecodeResult> = Vec::new();
        let mut i: usize = 0;
        while i < errors.len()
            invariant
                self.wf(),
                i <= errors.len(),
                D::lasts(self.decoder.model(), (errors.len() - i) as nat),
                first == *old(self),
                self.same_setup(first),
                D::code(self.decoder.model()) == D::code(start),
                forall|k: int|
                    0 <= k < errors.len() ==> (#[trigger] errors[k]).len() == D::code(start).cols,
                self.decoder.model() == after_errors::<D>(start, errors@, i as nat),
                out.len() == i,
                forall|k: int|
                    0 <= k < i ==> first.tells(
                        after_errors::<D>(start, errors@, k as nat),
                        D::code(start).mul_mod2(errors[k]@),
                        Some(errors[k]@),
                        #[trigger] out[k],
                    ),
            decreases errors.len() - i,
        {
            let ghost before = *self;
            proof {
                let left = (errors.len() - i) as nat;
                D::lemma_lasts(self.decoder.model(), D::code(start).mul_mod2(errors[i as int]@), left);
            }
            let r = self.from_errors_decode_observables_detailed(&errors[i]);
            proof {
                lemma_tells_same(
                    before,
                    first,
                    before.decoder.model(),
                    D::code(start).mul_mod2(errors[i as int]@),
                    Some(errors[i as int]@),
                    r,
                );
            }
            out.push(r);
            i += 1;
        }
        out
    }
}

/// What a decoder holds after the syndromes of the first `n` errors of a list.
pub open spec fn after_errors<D: Decoder>(m: D::M, errors: Seq<Vec<Bit>>, n: nat) -> D::M
    decreases n,
{
    if n == 0 {
        m
    } else {
        D::next(
            after_errors::<D>(m, errors, (n - 1) as nat),
            D::code(m).mul_mod2(errors[n - 1]@),
        )
    }
}

proof fn lemma_tells_same<D: Decoder>(
    a: ObservableDecoderRunner<D>,
    b: ObservableDecoderRunner<D>,
    model: D::M,
    det: Seq<Bit>,
    errors: Option<Seq<Bit>>,
    out: ObservableDecodeResult,
)
    requires
        a.same_setup(b),
        a.tells(model, det, errors, out),
    ensures
        b.tells(model, det, errors, out),
{
    let r = choose|r: DecodeResult|
        {
            &&& r@ == D::outcome(model, det)
            &&& D::noted(model, det, r.extra)
            &&& out@ == #[trigger] a.observed(model, errors, r)
            &&& out.physical_decode_result == (if a.include_decode_result {
                Some(r)
            } else {
                None
            })
        };
    assert(a.observed(model, errors, r) == b.observed(model, errors, r));
}

/// A decoder that knows the observables of errors.
pub trait ObservableDecoder: Decoder {
    /// Which errors flip which observable.
    spec fn observables(&self) -> MatrixModel;

    /// Which errors flip which observable.
    fn observable_error_matrix(&self) -> (r: &SparseBitMatrix)
        ensures
            r@ == self.observables(),
    ;

    /// The observables of errors.
    fn compute_observables(&self, errors: &Vec<Bit>) -> (r: Vec<Bit>)
        requires
            self.observables().wf(),
            errors.len() == self.observables().cols,
        ensures
            r@ == self.observables().mul_mod2(errors@),
    {
        self.observable_error_matrix().mul_mod2(errors)
    }

    /// The observables of the estimate for a syndrome.
    fn decode_observables(&mut self, detectors: &Vec<Bit>) -> (r: Vec<Bit>)
        requires
            Self::ready(old(self).model()),
            Self::lasts(old(self).model(), 1),
            old(self).observables().wf(),
            old(self).observables().cols == Self::code(old(self).model()).cols,
            detectors.len() == Self::code(old(self).model()).rows,
        ensures
            final(self).model() == Self::next(old(self).model(), detectors@),
            r@ == old(self).observables().mul_mod2(
                Self::outcome(old(self).model(), detectors@).decoding,
            ),
    {
        let matrix: SparseBitMatrix = self.observable_error_matrix().clone();
        let result = self.decode_detailed(detectors);
        matrix.mul_mod2(&result.decoding)
    }
}

impl<D: Decoder> Decoder for ObservableDecoderRunner<D> {
    type M = D::M;

    open spec fn model(&self) -> D::M {
        self.decoder.model()
    }

    open spec fn ready(m: D::M) -> bool {
        D::ready(m)
    }

    open spec fn code(m: D::M) -> MatrixModel {
        D::code(m)
    }

    open spec fn weights(m: D::M) -> Seq<i64> {
        D::weights(m)
    }

    open spec fn outcome(m: D::M, det: Seq<Bit>) -> ResultModel {
        D::outcome(m, det)
    }

    open spec fn noted(m: D::M, det: Seq<Bit>, extra: BPExtraResult) -> bool {
        D::noted(m, det, extra)
    }

    open spec fn next(m: D::M, det: Seq<Bit>) -> D::M {
        D::next(m, det)
    }

    open spec fn lasts(m: D::M, n: nat) -> bool {
        D::lasts(m, n)
    }

    proof fn lemma_ready(m: D::M) {
        D::lemma_ready(m);
    }

    proof fn lemma_lasts(m: D::M, det: Seq<Bit>, n: nat) {
        D::lemma_lasts(m, det, n);
    }

    fn can_decode(&self, n: usize) -> (r: bool) {
        self.decoder.can_decode(n)
    }

    fn check_matrix(&self) -> (r: &SparseBitMatrix) {
        self.decoder.check_matrix()
    }

    fn log_prior_ratios(&self) -> (r: Vec<i64>) {
        self.decoder.log_prior_ratios()
    }

    fn decode_detailed(&mut self, detectors: &Vec<Bit>) -> (r: DecodeResult) {
        let ghost m = self.model();
        let r = self.decoder.decode_detailed(detectors);
        assert(Self::noted(m, detectors@, r.extra));
        r
    }
}

impl<D: Decoder> ObservableDecoder for ObservableDecoderRunner<D> {
    open spec fn observables(&self) -> MatrixModel {
        self.observable_error_matrix@
    }

    fn observable_error_matrix(&self) -> (r: &SparseBitMatrix) {
        &self.observable_error_matrix
    }
}

} // verus!
