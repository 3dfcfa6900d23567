//! What is told of the observables of a decoding.

use vstd::prelude::*;

use crate::decoder::{decoding_quality, BPExtraResult, DecodeResult, Decoder, ResultModel};
use crate::ensemble_decoder::{bit_rows, first_least, of_class};
use crate::laws::ensemble::{first_lightest, lemma_first};
use crate::matrix::{Bit, MatrixModel};
use crate::observable_decoder::{
    all_marked, classes, clarity, compared, second_gap, ObservableDecoderRunner,
};
use crate::text::gap_text;

verus! {

/// A mark for each of `n` places.
pub open spec fn every(n: nat) -> Seq<bool> {
    Seq::new(n, |i: int| true)
}

/// A mark for each place of another kind than place `a`.
pub open spec fn unlike(kinds: Seq<Seq<Bit>>, a: int) -> Seq<bool> {
    Seq::new(kinds.len(), |i: int| kinds[i] != kinds[a])
}

/// The gap between kinds: by how much the lightest value of another kind exceeds the lightest
/// of all. There is one exactly if there are two kinds.
pub proof fn law_second_gap(kinds: Seq<Seq<Bit>>, weights: Seq<i128>)
    requires
        kinds.len() == weights.len(),
        weights.len() > 0,
    ensures
        ({
            let n = weights.len();
            exists|a: int|
                {
                    &&& #[trigger] first_lightest(weights, every(n), a)
                    &&& second_gap(kinds, weights) is None <==> forall|i: int|
                        0 <= i < n ==> #[trigger] kinds[i] == kinds[a]
                    &&& second_gap(kinds, weights) matches Some(g) ==> exists|b: int|
                        {
                            &&& #[trigger] first_lightest(weights, unlike(kinds, a), b)
                            &&& weights[b] - weights[a] <= i128::MAX ==> g == weights[b]
                                - weights[a]
                        }
                }
        }),
{
    let n = weights.len() as int;
    let all = all_marked(weights.len());
    assert(all =~= every(weights.len()));
    assert(all.take(n) =~= all);
    lemma_first(weights, all, n);
    assert(all[0]);
    let a = first_least(weights, all, n)->0;
    let others = unlike(kinds, a);
    let marked = of_class(kinds, all, kinds[a], false);
    assert(marked =~= others);
    assert(others.take(n) =~= others);
    lemma_first(weights, others, n);
    assert(first_lightest(weights, every(weights.len()), a));
    if second_gap(kinds, weights) is Some {
        let b = first_least(weights, others, n)->0;
        assert(first_lightest(weights, others, b));
        assert(others[b]);
        assert(all[b]);
        assert(kinds[b] != kinds[a]);
    } else {
        assert forall|i: int| 0 <= i < n implies #[trigger] kinds[i] == kinds[a] by {
            assert(!others[i]);
        }
    }
}

/// How clear a decision is told by: the gap between logical classes; if there is one class
/// only, the gap between estimates behind an `s`; if there is one estimate only, `inf`.
pub proof fn law_clarity(
    observables: MatrixModel,
    decodings: Seq<Seq<Bit>>,
    weights: Seq<i128>,
    one: int,
)
    ensures
        ({
            let kinds = Seq::new(decodings.len(), |k: int| observables.mul_mod2(decodings[k]));
            let c = clarity(observables, decodings, weights, one);
            &&& second_gap(kinds, weights) matches Some(g) ==> c == gap_text(g, one)
            &&& second_gap(kinds, weights) is None ==> {
                &&& second_gap(decodings, weights) matches Some(g) ==> c == "s"@ + gap_text(g, one)
                &&& second_gap(decodings, weights) is None ==> c == "inf"@
            }
        }),
{
    assert(classes(observables, decodings) =~= Seq::new(
        decodings.len(),
        |k: int| observables.mul_mod2(decodings[k]),
    ));
}

/// How a decoding compares with the errors that happened: whether it has other observables,
/// whether it differs at all, whether a failure got the observables right, and for wrong
/// observables whether the estimate has a higher quality than the errors.
pub proof fn law_compared(
    observables: MatrixModel,
    weights: Seq<i64>,
    errors: Seq<Bit>,
    r: ResultModel,
)
    ensures
        ({
            let t = compared(observables, weights, errors, r);
            let same = observables.mul_mod2(errors) == observables.mul_mod2(r.decoding);
            &&& t.error_detected <==> !same
            &&& t.error_mismatch_detected <==> errors != r.decoding
            &&& t.unconverged_no_error <==> same && !r.success
            &&& t.better_decoding_quality_error <==> !same && r.quality > decoding_quality(
                weights,
                errors,
            )
            &&& t.worse_decoding_quality_error <==> !same && r.quality <= decoding_quality(
                weights,
                errors,
            )
        }),
{
}

/// What is told of a decoding. The observables are those of the errors where they are known and
/// those of the estimate otherwise. A failure without an accepted solution counts as a logical
/// error in any case.
pub proof fn law_observed<D: Decoder>(
    runner: ObservableDecoderRunner<D>,
    model: D::M,
    errors: Option<Seq<Bit>>,
    r: DecodeResult,
)
    ensures
        ({
            let m = runner.observable_error_matrix@;
            let o = runner.observed(model, errors, r);
            &&& errors is None ==> o.observables == m.mul_mod2(r.decoding@) && o.truth is None
            &&& errors matches Some(e) ==> o.observables == m.mul_mod2(e) && o.truth == Some(
                compared(m, D::weights(model), e, r@),
            )
            &&& o.iterations == r.iterations
            &&& match r.extra {
                BPExtraResult::LBFTrace { converged } => o.converged == converged,
                _ => o.converged == r.success,
            }
            &&& r.success ==> !o.force_logical_error
            &&& !r.success && !(r.extra is SLGMBPTrace) ==> o.force_logical_error
            &&& !r.success ==> o.token == Some("0.0"@)
            &&& r.success && !(r.extra is SLGMBPTrace) ==> o.token is None
            &&& r.extra matches BPExtraResult::SLGMBPTrace(t) ==> {
                let fits = t.accepted_solution_decodings.len() > 0
                    && t.accepted_solution_decodings.len() == t.accepted_solution_weights.len();
                &&& o.force_logical_error <==> !r.success && !fits
                &&& r.success && fits ==> o.token == Some(
                    clarity(
                        m,
                        bit_rows(t.accepted_solution_decodings@),
                        t.accepted_solution_weights@,
                        runner.unit as int,
                    ),
                )
                &&& r.success && !fits ==> o.token is None
            }
        }),
{
}

} // verus!
