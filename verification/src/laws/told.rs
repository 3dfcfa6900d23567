//! What decoders record of their runs, and what a batch leaves behind.

use vstd::prelude::*;

use crate::adaptive_relay::{AdaptiveRelayTrace, AdaptiveRun};
use crate::decoder::{after, Decoder, LegsModel, ResultModel};
use crate::disordered_bp::{
    marked, marked_below, mean, DisorderedBPDecoderConfig, DisorderedBPLegTrace, DisorderedDraws,
};
use crate::dual_relay::{DualRelayTrace, DualRun};
use crate::laws::disordered::{is_biased, taken_by};
use crate::matrix::Bit;
use crate::observable_decoder::after_errors;
use crate::relay::{keeps, RelayLeg};
use crate::slg_mbp::adapt::SLGMBPDecoder;
use crate::slg_mbp::decode::{ones, ones_below};
use crate::slg_mbp::evaluate::residual;
use crate::slg_mbp::phase::PhaseModel;
use crate::slg_mbp::search::SearchModel;
use crate::slg_mbp::solutions::cost;
use crate::slg_mbp::trace::SearchStage;

verus! {

/// A batch is decoded one syndrome after the other, each by the decoder that the one before
/// left behind.
pub proof fn law_batch<D: Decoder>(m: D::M, detectors: Seq<Vec<Bit>>, n: nat)
    ensures
        after::<D>(m, detectors, 0) == m,
        after::<D>(m, detectors, n + 1) == D::next(
            after::<D>(m, detectors, n),
            detectors[n as int]@,
        ),
{
}

/// A batch of errors is decoded from their syndromes, one after the other.
pub proof fn law_errors_batch<D: Decoder>(m: D::M, errors: Seq<Vec<Bit>>, n: nat)
    ensures
        after_errors::<D>(m, errors, 0) == m,
        after_errors::<D>(m, errors, n + 1) == D::next(
            after_errors::<D>(m, errors, n),
            D::code(m).mul_mod2(errors[n as int]@),
        ),
{
}

/// What a relay decoder keeps of its legs.
pub proof fn law_relay_recorded(kept: Seq<RelayLeg>, legs: Seq<ResultModel>, l: int)
    requires
        keeps(kept, legs),
        0 <= l < legs.len(),
    ensures
        kept.len() == legs.len(),
        kept[l].iterations == legs[l].iterations,
        kept[l].converged == legs[l].success,
        kept[l].quality == legs[l].quality,
{
}

/// What a dual relay decoder records: its legs, how often each way was taken by the end, and
/// the number of distinct solutions.
pub proof fn law_dual_recorded(t: DualRun, e: DualRelayTrace)
    requires
        t.told(e),
    ensures
        e.legs@ == LegsModel::of(t.legs),
        e.counts == t.last.counts,
        e.unique_solution_count == t.found.len(),
{
}

/// What an adaptive decoder records: how many members tried, which one converged, of each
/// whether and when it did, and the legs and memory strengths of the one reported.
pub proof fn law_adaptive_recorded(t: AdaptiveRun, e: AdaptiveRelayTrace, k: int)
    requires
        t.told(e),
        0 <= k < t.members.len() <= usize::MAX,
        t.members[k].total <= usize::MAX,
    ensures
        e.executed_members == t.members.len(),
        ({
            let last = t.members.len() - 1;
            &&& t.members[last].success ==> e.winner_member_index == Some(last as usize)
            &&& !t.members[last].success ==> e.winner_member_index is None
        }),
        e.member_success[k] == t.members[k].success,
        e.member_total_iterations[k] == t.members[k].total,
        t.members[k].success ==> e.member_discovery_iterations[k] == Some(
            t.members[k].total as usize,
        ),
        !t.members[k].success ==> e.member_discovery_iterations[k] is None,
        e.leg_iterations@ == t.chosen().legs,
        e.gamma_history@ == t.chosen().history,
        e.clamp_applied_count == t.chosen().clamps,
{
}

/// What a disordered decoder records of a later leg that follows posteriors `previous`: how it
/// ended, the means of its dampings and memory strengths, and the number of biased variables.
pub proof fn law_disordered_recorded(
    config: DisorderedBPDecoderConfig,
    draws: Seq<DisorderedDraws>,
    leg: nat,
    previous: Seq<i64>,
    result: ResultModel,
    e: DisorderedBPLegTrace,
)
    requires
        leg > 0,
        config.told(draws, leg, previous, result, e),
    ensures
        e.success == result.success,
        e.iterations == result.iterations,
        e.decoding@ == result.decoding,
        e.posterior@ == result.posterior,
        exists|alphas: Seq<i64>, gammas: Seq<i64>|
            #![trigger mean(alphas), mean(gammas)]
            {
                &&& e.alpha_mean == mean(alphas)
                &&& e.gamma_mean == mean(gammas)
                &&& taken_by(
                    config.alpha_mode,
                    config.alpha_fixed,
                    draws[leg - 1].alphas@,
                    previous.len(),
                    alphas,
                )
                &&& taken_by(
                    config.gamma_mode,
                    config.gamma_fixed,
                    draws[leg - 1].gammas@,
                    previous.len(),
                    gammas,
                )
            },
        e.bias_applied_count == Set::new(
            |v: int| 0 <= v < previous.len() && is_biased(config, previous, v),
        ).len(),
{
    let cols = previous.len();
    let alphas = config.alphas_at(draws, leg, cols);
    let gammas = config.gammas_at(draws, leg, cols);
    assert(e.alpha_mean == mean(alphas) && e.gamma_mean == mean(gammas));
    let biases = config.biases_at(draws, leg, cols);
    let mask = config.mask_at(leg, previous);
    lemma_marked(biases, mask, cols);
    let a = Set::new(|v: int| 0 <= v < cols && mask[v]);
    let b = Set::new(|v: int| 0 <= v < previous.len() && is_biased(config, previous, v));
    assert(a =~= b);
}

proof fn lemma_marked(values: Seq<i64>, marks: Seq<bool>, n: nat)
    ensures
        Set::new(|v: int| 0 <= v < n && marks[v]).finite(),
        marked_below(values, marks, n).len() == Set::new(|v: int| 0 <= v < n && marks[v]).len(),
    decreases n,
{
    let s = Set::new(|v: int| 0 <= v < n && marks[v]);
    if n == 0 {
        assert(s =~= Set::empty());
    } else {
        let m = (n - 1) as nat;
        lemma_marked(values, marks, m);
        let t = Set::new(|v: int| 0 <= v < m && marks[v]);
        assert(!t.contains(m as int));
        if marks[m as int] {
            assert(s =~= t.insert(m as int));
        } else {
            assert(s =~= t);
        }
    }
}

/// What a search records: the solutions that count with their weights and when they were
/// found, the posteriors selected, and of every generation the best score and the mean memory
/// strength.
pub proof fn law_search_recorded(
    dec: SLGMBPDecoder,
    s: SearchModel,
    det: Seq<Bit>,
    first: bool,
    observe: bool,
    k: int,
)
    ensures
        ({
            let t = dec.record(s, det, first, observe);
            let r = dec.verdict(s);
            let counted = if r.success {
                dec.accepted(s.collected)
            } else {
                Seq::empty()
            };
            &&& t.phase1_converged == first
            &&& t.total == r.iterations
            &&& first ==> t.phase1 == r.iterations
            &&& !first ==> t.phase1 == s.phase1
            &&& t.generations == s.gammas.len()
            &&& t.scores == s.scores
            &&& t.gammas == s.gammas
            &&& t.residuals == s.residuals
            &&& t.selected == Some(r.posterior)
            &&& t.decodings.len() == counted.len()
            &&& t.weights.len() == counted.len()
            &&& t.discoveries.len() == counted.len()
            &&& 0 <= k < counted.len() ==> {
                &&& t.decodings[k] == counted[k].decoding
                &&& t.weights[k] == counted[k].cost as i128
                &&& t.discoveries[k] == counted[k].discovery as usize
            }
            &&& t.observed is Some <==> observe
            &&& t.observed matches Some(o) ==> o.weight == ones(det) && o.entries == s.entries
        }),
{
}

/// What is recorded of one member of a search that is observed.
pub proof fn law_entry(
    dec: SLGMBPDecoder,
    stage: SearchStage,
    generation: nat,
    member: nat,
    det: Seq<Bit>,
    p: PhaseModel,
    score: int,
)
    ensures
        ({
            let e = dec.entry(stage, generation, member, det, p, score);
            &&& e.stage == stage
            &&& e.generation == generation
            &&& e.member == member
            &&& e.residual == residual(dec.check_matrix@.mul_mod2(p.decoding), det)
            &&& e.adjacent == dec.surroundings(det, p.decoding)
            &&& e.adjacent_count == e.adjacent.len()
            &&& e.llrs.len() == e.adjacent.len()
            &&& forall|k: int|
                0 <= k < e.llrs.len() ==> #[trigger] e.llrs[k] == p.posterior[e.adjacent[k] as int]
            &&& e.score == score
            &&& e.converged == p.success
            &&& e.iterations == p.iterations
            &&& e.weight == cost(p.decoding, dec.base_min_sum_config@.priors)
        }),
{
}

/// The weight of a syndrome is the number of detectors that fired.
pub proof fn law_ones(bits: Seq<Bit>)
    ensures
        ones(bits) == Set::new(|i: int| 0 <= i < bits.len() && bits[i] == 1).len(),
{
    lemma_ones(bits, bits.len() as int);
}

proof fn lemma_ones(bits: Seq<Bit>, n: int)
    requires
        n >= 0,
    ensures
        Set::new(|i: int| 0 <= i < n && bits[i] == 1).finite(),
        ones_below(bits, n) == Set::new(|i: int| 0 <= i < n && bits[i] == 1).len(),
    decreases n,
{
    let s = Set::new(|i: int| 0 <= i < n && bits[i] == 1);
    if n == 0 {
        assert(s =~= Set::empty());
    } else {
        lemma_ones(bits, n - 1);
        let t = Set::new(|i: int| 0 <= i < n - 1 && bits[i] == 1);
        assert(!t.contains(n - 1));
        if bits[n - 1] == 1 {
            assert(s =~= t.insert(n - 1));
        } else {
            assert(s =~= t);
        }
    }
}

/// The magnitudes of the biases applied, variable by variable.
pub proof fn law_marked(values: Seq<i64>, marks: Seq<bool>, n: nat)
    requires
        values[n as int] > i64::MIN,
    ensures
        marked_below(values, marks, 0).len() == 0,
        !marks[n as int] ==> marked_below(values, marks, n + 1) == marked_below(values, marks, n),
        marks[n as int] && values[n as int] >= 0 ==> marked_below(values, marks, n + 1)
            == marked_below(values, marks, n).push(values[n as int]),
        marks[n as int] && values[n as int] < 0 ==> marked_below(values, marks, n + 1)
            == marked_below(values, marks, n).push((-values[n as int]) as i64),
        marked(values, marks) == marked_below(values, marks, values.len()),
{
}

} // verus!
