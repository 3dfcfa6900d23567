//! What each decoding returns, which draws it uses, and what it leaves for the next.

use vstd::prelude::*;

use crate::adaptive_relay::{DrawnAdaptiveDecoder, DrawnAdaptiveModel};
use crate::clip_bp::{DrawnClipDecoder, DrawnClipModel};
use crate::decoder::{Decoder, ResultModel};
use crate::disordered_bp::{DisorderedBPDecoderConfig, DrawnDisorderedDecoder, DrawnDisorderedModel};
use crate::dual_relay::{DrawnDualDecoder, DrawnDualModel, DualRelayDecoderConfig};
use crate::ensemble_decoder::{outcomes, EnsembleDecoder, EnsembleState};
use crate::laws::dual::some_of;
use crate::lbf::LbfDecoder;
use crate::lrbp::legs::{DrawnLrbpDecoder, DrawnLrbpModel};
use crate::matrix::Bit;
use crate::min_sum::{BpModel, ConfigModel, DrawnMinSumDecoder, DrawnMinSumModel, MinSumBPDecoder};
use crate::rejection_decoder::{RejectionDecoder, RejectionModel};
use crate::relay::{
    final_leg, lightest, relayed, total_iterations, DrawnRelayDecoder, DrawnRelayModel,
};
use crate::slg_mbp::decode::{DrawnSearchDecoder, DrawnSearchModel};

verus! {

/// `rest` is `all` without its first entry.
pub open spec fn used_up<T>(all: Seq<T>, rest: Seq<T>) -> bool {
    &&& rest.len() == all.len() - 1
    &&& forall|k: int| 0 <= k < rest.len() ==> #[trigger] rest[k] == all[k + 1]
}

/// Min-sum decoding with coins throws those meant for it and leaves the others.
pub proof fn law_min_sum_supply(m: DrawnMinSumModel, det: Seq<Bit>)
    requires
        m.supply.len() > 0,
    ensures
        DrawnMinSumDecoder::outcome(m, det) == m.bp.decoded(det, m.supply[0]@),
        used_up(m.supply, DrawnMinSumDecoder::next(m, det).supply),
        MinSumBPDecoder::outcome(m.bp, det) == m.bp.decoded(det, Seq::empty()),
{
}

/// A relay decoder uses the draws meant for the decoding and leaves the others. It returns
/// what is chosen of its legs.
pub proof fn law_relay_supply(m: DrawnRelayModel, det: Seq<Bit>)
    requires
        m.supply.len() > 0,
    ensures
        ({
            let t = m.config.run(m.supply[0].draws@, m.supply[0].coins@, det, m.bp);
            let next = DrawnRelayDecoder::next(m, det);
            &&& DrawnRelayDecoder::outcome(m, det) == relayed(t.legs)
            &&& next.bp == t.last
            &&& next.config == m.config
            &&& used_up(m.supply, next.supply)
        }),
{
}

/// So does a decoder with clipped posteriors.
pub proof fn law_clip_supply(m: DrawnClipModel, det: Seq<Bit>)
    requires
        m.supply.len() > 0,
    ensures
        ({
            let t = m.clip.config.legs(
                m.supply[0].draws@,
                m.supply[0].coins@,
                det,
                m.clip.state.bp,
            );
            let next = DrawnClipDecoder::next(m, det);
            &&& DrawnClipDecoder::outcome(m, det) == lightest(t.legs)
            &&& next.clip.state == t.last
            &&& next.clip.config == m.clip.config
            &&& used_up(m.supply, next.supply)
        }),
{
}

/// So does a dual relay decoder.
pub proof fn law_dual_supply(m: DrawnDualModel, det: Seq<Bit>)
    requires
        m.supply.len() > 0,
    ensures
        ({
            let t = m.config.run(m.supply[0]@, det, m.bp);
            let next = DrawnDualDecoder::next(m, det);
            &&& DrawnDualDecoder::outcome(m, det) == lightest(t.legs)
            &&& next.bp == t.last.bp
            &&& next.config == m.config
            &&& used_up(m.supply, next.supply)
        }),
{
}

/// A disordered decoder returns its last leg, and leaves no damping of its own behind.
pub proof fn law_disordered_supply(m: DrawnDisorderedModel, det: Seq<Bit>)
    requires
        m.supply.len() > 0,
    ensures
        ({
            let t = m.config.run(m.supply[0]@, det, m.bp);
            let next = DrawnDisorderedDecoder::next(m, det);
            &&& DrawnDisorderedDecoder::outcome(m, det) == final_leg(t.legs)
            &&& next.bp.posterior == t.last.posterior
            &&& next.bp.alphas is None
            &&& next.config == m.config
            &&& used_up(m.supply, next.supply)
        }),
{
}

/// A decoder with alternating legs returns its last leg.
pub proof fn law_lrbp_supply(m: DrawnLrbpModel, det: Seq<Bit>)
    requires
        m.supply.len() > 0,
    ensures
        ({
            let t = m.config.run(m.supply[0].draws@, m.supply[0].coins@, det, m.bp);
            let next = DrawnLrbpDecoder::next(m, det);
            &&& DrawnLrbpDecoder::outcome(m, det) == final_leg(t.legs)
            &&& next.bp == t.last
            &&& next.config == m.config
            &&& used_up(m.supply, next.supply)
        }),
{
}

/// An adaptive decoder returns the member that is reported.
pub proof fn law_adaptive_supply(m: DrawnAdaptiveModel, det: Seq<Bit>)
    requires
        m.supply.len() > 0,
    ensures
        ({
            let t = m.config.run(m.supply[0]@, det, m.bp);
            let next = DrawnAdaptiveDecoder::next(m, det);
            &&& DrawnAdaptiveDecoder::outcome(m, det) == m.config.member_result(t.chosen())
            &&& next.bp == t.last
            &&& next.config == m.config
            &&& used_up(m.supply, next.supply)
        }),
{
}

/// A search returns its verdict.
pub proof fn law_search_supply(m: DrawnSearchModel, det: Seq<Bit>)
    requires
        m.supply.len() > 0,
    ensures
        ({
            let next = DrawnSearchDecoder::next(m, det);
            &&& DrawnSearchDecoder::outcome(m, det) == m.decoder.verdict(
                m.decoder.searched(det, m.supply[0], false),
            )
            &&& next.decoder == m.decoder
            &&& used_up(m.supply, next.supply)
        }),
{
}

/// Every member of an ensemble decodes the syndrome for itself, and the results are combined.
pub proof fn law_ensemble_members<D: Decoder>(m: EnsembleState<D::M>, det: Seq<Bit>, i: int)
    requires
        0 <= i < m.children.len(),
    ensures
        exists|results: Seq<ResultModel>|
            {
                &&& EnsembleDecoder::<D>::outcome(m, det) == #[trigger] m.rule.combined(results)
                &&& results.len() == m.children.len()
                &&& results[i] == D::outcome(m.children[i], det)
                &&& forall|k: int|
                    0 <= k < results.len() ==> #[trigger] results[k] == D::outcome(
                        m.children[k],
                        det,
                    )
            },
        ({
            let next = EnsembleDecoder::<D>::next(m, det);
            &&& next.children.len() == m.children.len()
            &&& next.children[i] == D::next(m.children[i], det)
            &&& next.rule == m.rule
            &&& next.mode == m.mode
            &&& next.repulsive == m.repulsive
        }),
{
    let results = outcomes::<D>(m.children, det);
    assert(EnsembleDecoder::<D>::outcome(m, det) == m.rule.combined(results));
}

/// What a decoder returns that takes its last leg: that leg, with the iterations of all.
pub proof fn law_final_leg(legs: Seq<ResultModel>)
    requires
        legs.len() > 0,
    ensures
        final_leg(legs) == (ResultModel {
            iterations: total_iterations(legs),
            ..legs[legs.len() - 1]
        }),
{
}

/// The min-sum decoder inside a dual relay has memory, drops no messages, and is the one given
/// in all else.
pub proof fn law_dual_inner(config: DualRelayDecoderConfig, c: ConfigModel)
    ensures
        ({
            let r = config.inner(c);
            &&& r.gamma0 == Some(config.initial_gamma_slow)
            &&& !r.drop_enabled
            &&& r.priors == c.priors
            &&& r.alpha == c.alpha
            &&& r.alpha_schedule == c.alpha_schedule
            &&& r.scale == c.scale
            &&& r.max_data == c.max_data
            &&& r.whole_units == c.whole_units
        }),
{
}

/// The min-sum decoder inside a disordered one has memory, drops no messages, and is the one
/// given in all else.
pub proof fn law_disordered_inner(config: DisorderedBPDecoderConfig, c: ConfigModel)
    requires
        config.fits(),
    ensures
        ({
            let r = config.inner(c);
            &&& r.gamma0 == Some(config.initial_gamma)
            &&& r.alpha == Some(config.alpha_fixed)
            &&& !r.drop_enabled
            &&& r.max_iter == config.t_0 + (some_of(config.maximum_leg) - 1)
                * config.iteration_per_leg
            &&& r.priors == c.priors
            &&& r.scale == c.scale
            &&& r.max_data == c.max_data
            &&& r.whole_units == c.whole_units
        }),
{
    let legs = some_of(config.maximum_leg) - 1;
    let per: int = if config.iteration_per_leg == 0 {
        1
    } else {
        config.iteration_per_leg as int
    };
    assert(0 <= legs * config.iteration_per_leg <= legs * per) by (nonlinear_arith)
        requires
            legs >= 0,
            0 <= config.iteration_per_leg <= per,
    ;
}

/// Every decoder decodes the code it was built for and weighs estimates by the priors it was
/// built with.
pub proof fn law_code_and_weights(
    bp: BpModel,
    min_sum: DrawnMinSumModel,
    relay: DrawnRelayModel,
    clip: DrawnClipModel,
    dual: DrawnDualModel,
    disordered: DrawnDisorderedModel,
    lrbp: DrawnLrbpModel,
    adaptive: DrawnAdaptiveModel,
    search: DrawnSearchModel,
    rejection: RejectionModel,
)
    ensures
        MinSumBPDecoder::code(bp) == bp.matrix,
        MinSumBPDecoder::weights(bp) == bp.config.priors,
        DrawnMinSumDecoder::code(min_sum) == min_sum.bp.matrix,
        DrawnMinSumDecoder::weights(min_sum) == min_sum.bp.config.priors,
        DrawnRelayDecoder::code(relay) == relay.bp.matrix,
        DrawnRelayDecoder::weights(relay) == relay.bp.config.priors,
        DrawnClipDecoder::code(clip) == clip.clip.state.bp.matrix,
        DrawnClipDecoder::weights(clip) == clip.clip.state.bp.config.priors,
        DrawnDualDecoder::code(dual) == dual.bp.matrix,
        DrawnDualDecoder::weights(dual) == dual.bp.config.priors,
        DrawnDisorderedDecoder::code(disordered) == disordered.bp.matrix,
        DrawnDisorderedDecoder::weights(disordered) == disordered.bp.config.priors,
        DrawnLrbpDecoder::code(lrbp) == lrbp.bp.matrix,
        DrawnLrbpDecoder::weights(lrbp) == lrbp.bp.config.priors,
        DrawnAdaptiveDecoder::code(adaptive) == adaptive.bp.matrix,
        DrawnAdaptiveDecoder::weights(adaptive) == adaptive.bp.config.priors,
        DrawnSearchDecoder::code(search) == search.decoder.check_matrix@,
        DrawnSearchDecoder::weights(search) == search.decoder.base_min_sum_config@.priors,
        RejectionDecoder::code(rejection) == rejection.matrix,
        RejectionDecoder::weights(rejection) == rejection.min_sum.priors,
{
}

/// A rejection decoder returns its first stage and is left as it was.
pub proof fn law_rejection_returns(m: RejectionModel, det: Seq<Bit>)
    ensures
        RejectionDecoder::outcome(m, det) == m.first(det),
        RejectionDecoder::next(m, det) == m,
{
}

/// Bit flipping returns what it ends with, and is left for the same code with the same
/// parameters.
pub proof fn law_flipping_returns(d: LbfDecoder, det: Seq<Bit>)
    ensures
        ({
            let r = LbfDecoder::outcome(d, det);
            let out = d.flipping(det);
            &&& r.decoding == out.decoding
            &&& r.success == out.success
            &&& r.iterations == out.rounds
            &&& r.max_iter == d.config.max_iter
            &&& r.decoded_detectors == d.check_matrix@.mul_mod2(out.decoding)
        }),
        LbfDecoder::next(d, det).check_matrix == d.check_matrix,
        LbfDecoder::next(d, det).variable_neighborhoods == d.variable_neighborhoods,
        LbfDecoder::next(d, det).config == d.config,
        LbfDecoder::code(d) == d.check_matrix@,
{
}

} // verus!
