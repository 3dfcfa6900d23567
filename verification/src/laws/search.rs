//! How a generational search goes on from its first population to its verdict.

use vstd::prelude::*;

use crate::arith::{abs, sum, trunc_div};
use crate::decoder::{decoding_quality, zero_bits};
use crate::laws::iteration::{law_quotient, rounded};
use crate::laws::breeding::law_less_comes_first;
use crate::laws::legs::{
    explains, lemma_passes_longer, lemma_passes_none, lemma_passes_once, passes,
};
use crate::laws::rejection::lemma_reaches;
use crate::laws::search_leg::{disturbed, drawn_state, law_disturbed, law_first_prior};
use crate::matrix::Bit;
use crate::min_sum::BpModel;
use crate::order::order;
use crate::slg_mbp::adapt::{MemberDraws, SLGMBPDecoder};
use crate::slg_mbp::biased::RoundModel;
use crate::slg_mbp::evaluate::{confidence, fitness, low_count, residual};
use crate::slg_mbp::ga_ops::MemberModel;
use crate::slg_mbp::init_population::perturbed;
use crate::slg_mbp::phase::{drift, PhaseModel};
use crate::slg_mbp::search::{
    mean, GenerationDraws, LayerModel, SearchDraws, SearchModel,
};
use crate::slg_mbp::solutions::{
    cost, cost_below, cost_keys, countable, found_keys, SolutionModel,
};

verus! {

/// The number of solutions that end a search.
pub open spec fn sought(dec: SLGMBPDecoder) -> nat {
    if dec.config.solution_collection_mode is PostSelection && dec.config.n_solutions > 1 {
        dec.config.n_solutions as nat
    } else {
        1
    }
}

/// The score of an outcome, where `sure` is its confidence.
pub open spec fn scored(dec: SLGMBPDecoder, det: Seq<Bit>, p: PhaseModel, sure: int) -> int {
    fitness(
        residual(dec.check_matrix@.mul_mod2(p.decoding), det),
        sure,
        low_count(p.posterior, dec.config.fitness_low_llr_threshold as int),
        dec.config.fitness_alpha as int,
        dec.config.fitness_beta as int,
        dec.config.fitness_low_llr_mu as int,
        dec.one(),
    )
}

/// `b` holds the best outcome of those of `a` and the outcome `p`: `p` only if its score is
/// higher.
pub open spec fn keeps_best(a: SearchModel, b: SearchModel, p: PhaseModel, score: int) -> bool {
    &&& score > a.best_fitness ==> {
        &&& b.best_fitness == score
        &&& b.best_decoding == p.decoding
        &&& b.best_posterior == p.posterior
    }
    &&& score <= a.best_fitness ==> {
        &&& b.best_fitness == a.best_fitness
        &&& b.best_decoding == a.best_decoding
        &&& b.best_posterior == a.best_posterior
    }
}

/// Weight adds up the priors of the errors.
pub proof fn law_cost(decoding: Seq<Bit>, prior: Seq<i64>, bit: Bit, ratio: i64)
    requires
        decoding.len() == prior.len(),
    ensures
        cost(Seq::empty(), Seq::empty()) == 0,
        bit == 0 ==> cost(decoding.push(bit), prior.push(ratio)) == cost(decoding, prior),
        bit == 1 ==> cost(decoding.push(bit), prior.push(ratio)) == cost(decoding, prior) + ratio,
{
    lemma_cost_take(decoding.push(bit), decoding, prior.push(ratio), prior, prior.len() as int);
    assert(0 * ratio == 0 && 1 * ratio == ratio) by (nonlinear_arith);
}

proof fn lemma_cost_take(a: Seq<Bit>, b: Seq<Bit>, p: Seq<i64>, q: Seq<i64>, n: int)
    requires
        forall|i: int| 0 <= i < n ==> a[i] == b[i] && p[i] == q[i],
    ensures
        cost_below(a, p, n) == cost_below(b, q, n),
    decreases n,
{
    if n > 0 {
        lemma_cost_take(a, b, p, q, n - 1);
    }
}

/// Each member of the first population is decoded from priors with a perturbation of its own.
/// One that explains the detectors is a solution; any other joins the population with its
/// posteriors, its score and its perturbation.
pub proof fn law_first_member(
    dec: SLGMBPDecoder,
    s: SearchModel,
    det: Seq<Bit>,
    m: nat,
    values: Seq<i64>,
    observe: bool,
)
    requires
        dec.wf(),
    ensures
        ({
            let t = dec.phase1_step(s, det, m, values, observe);
            let state = drawn_state(dec.config.init_perturbation_mode, values);
            exists|init: Seq<i64>|
                {
                    let p = #[trigger] dec.first_phase(det, init, observe);
                    let sure = if dec.config.init_strategy is MinSum {
                        drift(dec.fresh(init, dec.config.t_ms, false), det, dec.config.t_ms as nat)
                    } else {
                        confidence(p.posterior)
                    };
                    let score = scored(dec, det, p, sure);
                    &&& init.len() == dec.cols()
                    &&& forall|v: int|
                        0 <= v < dec.cols() ==> disturbed(
                            #[trigger] init[v] as int,
                            dec.first_prior()[v] as int,
                            state,
                            dec.one(),
                            v,
                        )
                    &&& keeps_best(s, t, p, score)
                    &&& p.iterations <= t.phase1
                    &&& s.phase1 <= t.phase1
                    &&& t.phase1 == p.iterations || t.phase1 == s.phase1
                    &&& t.total == s.total
                    &&& t.threshold == s.threshold
                    &&& p.success ==> {
                        &&& t.members == s.members
                        &&& t.collected.len() == s.collected.len() + 1
                        &&& t.collected.drop_last() == s.collected
                        &&& t.collected.last().discovery == p.iterations
                        &&& t.collected.last().decoding == p.decoding
                        &&& t.collected.last().posterior == p.posterior
                        &&& t.collected.last().cost == cost(p.decoding, dec.first_prior())
                    }
                    &&& !p.success ==> {
                        &&& t.collected == s.collected
                        &&& t.members.len() == s.members.len() + 1
                        &&& t.members.drop_last() == s.members
                        &&& t.members.last().posterior == p.posterior
                        &&& t.members.last().fitness == score
                        &&& t.members.last().perturbation == state
                        &&& t.members.last().adaptive_prior is None
                        &&& t.members.last().mask is None
                    }
                }
        }),
{
    let t = dec.phase1_step(s, det, m, values, observe);
    let state = drawn_state(dec.config.init_perturbation_mode, values);
    let init = perturbed(dec.first_prior(), state, dec.one());
    let p = dec.first_phase(det, init, observe);
    assert forall|v: int| 0 <= v < dec.cols() implies disturbed(
        #[trigger] init[v] as int,
        dec.first_prior()[v] as int,
        state,
        dec.one(),
        v,
    ) by {
        law_first_prior(dec, v);
        law_disturbed(dec.first_prior(), state, dec.one(), v);
    }
    assert(dec.first_prior().len() == dec.cols());
    if p.success {
        assert(t.collected.drop_last() =~= s.collected);
    } else {
        assert(t.members.drop_last() =~= s.members);
    }
}

/// Decoding the next member of the first population.
pub open spec fn first_members(
    dec: SLGMBPDecoder,
    det: Seq<Bit>,
    population: Seq<Vec<i64>>,
    observe: bool,
) -> spec_fn(int, SearchModel) -> SearchModel {
    |m: int, s: SearchModel| dec.phase1_step(s, det, m as nat, population[m]@, observe)
}

/// The search has all the solutions it needs.
pub open spec fn supplied(dec: SLGMBPDecoder) -> spec_fn(SearchModel) -> bool {
    |s: SearchModel| s.collected.len() >= sought(dec)
}

proof fn lemma_phase1(
    dec: SLGMBPDecoder,
    s: SearchModel,
    det: Seq<Bit>,
    population: Seq<Vec<i64>>,
    m: nat,
    observe: bool,
) -> (path: Seq<SearchModel>)
    ensures
        passes(
            path,
            s,
            dec.phase1_run(s, det, population, m, observe),
            first_members(dec, det, population, observe),
            supplied(dec),
            m as int,
            population.len() as int,
        ),
    decreases population.len() - m,
{
    let step = first_members(dec, det, population, observe);
    let done = supplied(dec);
    let n = population.len() as int;
    if m >= population.len() {
        lemma_passes_none(s, step, done, m as int, n);
        seq![s]
    } else {
        let t = dec.phase1_step(s, det, m, population[m as int]@, observe);
        assert(step(m as int, s) == t);
        if t.collected.len() >= dec.wanted() {
            lemma_passes_once(s, step, done, m as int, n);
            seq![s, t]
        } else {
            let path = lemma_phase1(dec, t, det, population, m + 1, observe);
            lemma_passes_longer(
                path,
                s,
                dec.phase1_run(s, det, population, m, observe),
                step,
                done,
                m as int,
                n,
            );
            seq![s] + path
        }
    }
}

/// The first phase starts without members and solutions and decodes one member after the
/// other, until there are enough solutions or the population is through.
pub proof fn law_first_population(
    dec: SLGMBPDecoder,
    det: Seq<Bit>,
    population: Seq<Vec<i64>>,
    observe: bool,
)
    ensures
        exists|path: Seq<SearchModel>, start: SearchModel|
            {
                &&& #[trigger] passes(
                    path,
                    start,
                    dec.phase1(det, population, observe),
                    first_members(dec, det, population, observe),
                    supplied(dec),
                    0,
                    population.len() as int,
                )
                &&& start.members.len() == 0
                &&& start.collected.len() == 0
                &&& start.best_fitness == i128::MIN
                &&& start.best_decoding == zero_bits(dec.cols())
                &&& start.best_posterior == dec.first_prior()
                &&& start.phase1 == 0
                &&& start.total == 0
                &&& start.threshold == dec.first_threshold()
            },
{
    let path = lemma_phase1(dec, dec.first_search(), det, population, 0, observe);
    assert(passes(
        path,
        dec.first_search(),
        dec.phase1(det, population, observe),
        first_members(dec, det, population, observe),
        supplied(dec),
        0,
        population.len() as int,
    ));
}

/// What becomes of a child after its leg. One that explains the detectors is a solution, found
/// after the iterations of the generations before and its own; any other joins the next
/// generation with the posteriors that its leg ended with and their score. A solution of one
/// iteration ends the generation, unless solutions are selected afterwards.
pub proof fn law_child_step(
    dec: SLGMBPDecoder,
    layer: LayerModel,
    det: Seq<Bit>,
    g: nat,
    k: nat,
    child: MemberModel,
    draws: MemberDraws,
    observe: bool,
)
    ensures
        ({
            let s = layer.search;
            let next = dec.child_step(layer, det, g, k, child, draws, observe);
            let run = dec.generation_leg(det, g, child, s.threshold, draws);
            let p = run.phase;
            let score = scored(dec, det, p, confidence(p.posterior));
            let left = residual(dec.check_matrix@.mul_mod2(p.decoding), det);
            &&& keeps_best(s, next.search, p, score)
            &&& next.search.members == s.members
            &&& next.search.collected == s.collected
            &&& next.search.total == s.total
            &&& next.search.threshold == s.threshold
            &&& next.search.residuals == s.residuals.push(left as usize)
            &&& score > layer.best ==> next.best == score && (next.top matches Some(top)
                && top.posterior == p.posterior && top.gamma == run.gamma)
            &&& score <= layer.best ==> next.best == layer.best && next.top == layer.top
            &&& next.longest >= p.iterations && next.longest >= layer.longest
            &&& next.longest == p.iterations || next.longest == layer.longest
            &&& p.success ==> {
                &&& next.next == layer.next
                &&& next.iterations == layer.iterations
                &&& next.found == layer.found.push(next.found.last())
                &&& next.found.last().discovery == s.total + p.iterations
                &&& next.found.last().decoding == p.decoding
                &&& next.found.last().posterior == p.posterior
                &&& next.found.last().cost == cost(p.decoding, dec.base_min_sum_config@.priors)
                &&& next.stopped == (p.iterations == 1 && !(
                dec.config.solution_collection_mode is PostSelection))
            }
            &&& !p.success ==> {
                &&& next.found == layer.found
                &&& next.stopped == layer.stopped
                &&& next.iterations >= p.iterations && next.iterations >= layer.iterations
                &&& next.iterations == p.iterations || next.iterations == layer.iterations
                &&& next.next == layer.next.push(next.next.last())
                &&& next.next.last().posterior == p.posterior
                &&& next.next.last().fitness == score
                &&& next.next.last().perturbation == run.member.perturbation
                &&& next.next.last().adaptive_prior == run.member.adaptive_prior
                &&& next.next.last().mask == run.member.mask
                &&& !observe ==> next.next.last().adjacent == child.adjacent
                &&& observe ==> next.next.last().adjacent == dec.surroundings(det, p.decoding)
            }
        }),
{
}

/// Decoding the next child of a generation.
pub open spec fn next_child(
    dec: SLGMBPDecoder,
    det: Seq<Bit>,
    g: nat,
    children: Seq<MemberModel>,
    draws: Seq<MemberDraws>,
    observe: bool,
) -> spec_fn(int, LayerModel) -> LayerModel {
    |k: int, l: LayerModel| dec.child_step(l, det, g, k as nat, children[k], draws[k], observe)
}

/// The generation was ended.
pub open spec fn layer_stopped() -> spec_fn(LayerModel) -> bool {
    |l: LayerModel| l.stopped
}

proof fn lemma_children(
    dec: SLGMBPDecoder,
    layer: LayerModel,
    det: Seq<Bit>,
    g: nat,
    children: Seq<MemberModel>,
    draws: Seq<MemberDraws>,
    k: nat,
    observe: bool,
) -> (path: Seq<LayerModel>)
    requires
        !layer.stopped,
    ensures
        passes(
            path,
            layer,
            dec.children_run(layer, det, g, children, draws, k, observe),
            next_child(dec, det, g, children, draws, observe),
            layer_stopped(),
            k as int,
            children.len() as int,
        ),
    decreases children.len() - k,
{
    let step = next_child(dec, det, g, children, draws, observe);
    let done = layer_stopped();
    let n = children.len() as int;
    if k >= children.len() {
        lemma_passes_none(layer, step, done, k as int, n);
        seq![layer]
    } else {
        let t = dec.child_step(layer, det, g, k, children[k as int], draws[k as int], observe);
        let end = dec.children_run(layer, det, g, children, draws, k, observe);
        assert(step(k as int, layer) == t);
        assert(end == dec.children_run(t, det, g, children, draws, k + 1, observe));
        if t.stopped {
            lemma_passes_once(layer, step, done, k as int, n);
            seq![layer, t]
        } else {
            let path = lemma_children(dec, t, det, g, children, draws, k + 1, observe);
            lemma_passes_longer(path, layer, end, step, done, k as int, n);
            seq![layer] + path
        }
    }
}

/// A generation decodes the children of the members of the search, one after the other. Their
/// solutions are added to those collected before. If there are enough, the search ends as it
/// stands. Otherwise the children that explained nothing take the place of the members, the
/// longest of their legs counts, and the threshold moves on.
pub proof fn law_generation(
    dec: SLGMBPDecoder,
    s: SearchModel,
    det: Seq<Bit>,
    g: nat,
    draws: GenerationDraws,
    observe: bool,
)
    ensures
        ({
            let children = dec.config.next_generation(s.members, draws.children@);
            let t = dec.generation(s, det, g, draws, observe);
            exists|path: Seq<LayerModel>, start: LayerModel, end: LayerModel|
                {
                    let done = t.collected.len() >= sought(dec);
                    &&& #[trigger] passes(
                        path,
                        start,
                        end,
                        next_child(dec, det, g, children, draws.members@, observe),
                        layer_stopped(),
                        0,
                        children.len() as int,
                    )
                    &&& start.search == s
                    &&& start.next.len() == 0
                    &&& start.found.len() == 0
                    &&& start.best == i128::MIN
                    &&& start.iterations == 0
                    &&& start.longest == 0
                    &&& start.top is None
                    &&& t.collected == end.search.collected + end.found
                    &&& t.best_decoding == end.search.best_decoding
                    &&& t.best_posterior == end.search.best_posterior
                    &&& t.best_fitness == end.search.best_fitness
                    &&& t.residuals == end.search.residuals
                    &&& t.gammas == end.search.gammas.push(
                        match end.top {
                            Some(top) => mean(top.gamma),
                            None => 0i64,
                        },
                    )
                    &&& !done ==> {
                        &&& t.members == end.next
                        &&& t.total == end.search.total + end.iterations
                        &&& t.threshold == dec.next_threshold(end.search.threshold, end.longest)
                        &&& t.scores == end.search.scores.push(end.best as i128)
                    }
                    &&& done ==> {
                        &&& t.members == end.search.members
                        &&& t.total == end.search.total
                        &&& t.threshold == end.search.threshold
                    }
                }
        }),
{
    let children = dec.config.next_generation(s.members, draws.children@);
    let start = dec.first_layer(s);
    let path = lemma_children(dec, start, det, g, children, draws.members@, 0, observe);
    let end = dec.children_run(start, det, g, children, draws.members@, 0, observe);
    assert(passes(
        path,
        start,
        end,
        next_child(dec, det, g, children, draws.members@, observe),
        layer_stopped(),
        0,
        children.len() as int,
    ));
}

/// The next generation of a search.
pub open spec fn next_layer(
    dec: SLGMBPDecoder,
    det: Seq<Bit>,
    draws: Seq<GenerationDraws>,
    observe: bool,
) -> spec_fn(int, SearchModel) -> SearchModel {
    |g: int, s: SearchModel| dec.generation(s, det, g as nat, draws[g], observe)
}

/// The next round of biased relay of a search.
pub open spec fn next_round(
    dec: SLGMBPDecoder,
    det: Seq<Bit>,
    draws: Seq<GenerationDraws>,
) -> spec_fn(int, SearchModel) -> SearchModel {
    |r: int, s: SearchModel| dec.round(s, det, r as nat, draws[r])
}

proof fn lemma_generations(
    dec: SLGMBPDecoder,
    s: SearchModel,
    det: Seq<Bit>,
    draws: Seq<GenerationDraws>,
    g: nat,
    observe: bool,
) -> (path: Seq<SearchModel>)
    ensures
        passes(
            path,
            s,
            dec.generations_run(s, det, draws, g, observe),
            next_layer(dec, det, draws, observe),
            supplied(dec),
            g as int,
            dec.config.g_max as int,
        ),
    decreases dec.config.g_max - g,
{
    let step = next_layer(dec, det, draws, observe);
    let done = supplied(dec);
    let n = dec.config.g_max as int;
    if g >= n {
        lemma_passes_none(s, step, done, g as int, n);
        seq![s]
    } else {
        let t = dec.generation(s, det, g, draws[g as int], observe);
        assert(step(g as int, s) == t);
        if t.collected.len() >= dec.wanted() {
            lemma_passes_once(s, step, done, g as int, n);
            seq![s, t]
        } else {
            let path = lemma_generations(dec, t, det, draws, g + 1, observe);
            let end = dec.generations_run(s, det, draws, g, observe);
            lemma_passes_longer(path, s, end, step, done, g as int, n);
            seq![s] + path
        }
    }
}

/// The number of rounds of biased relay, at least one.
pub open spec fn rounds_allowed(dec: SLGMBPDecoder) -> int {
    if dec.config.biased_relay_maximum_round == 0 {
        1
    } else {
        dec.config.biased_relay_maximum_round as int
    }
}

proof fn lemma_rounds(
    dec: SLGMBPDecoder,
    s: SearchModel,
    det: Seq<Bit>,
    draws: Seq<GenerationDraws>,
    r: nat,
) -> (path: Seq<SearchModel>)
    ensures
        passes(
            path,
            s,
            dec.rounds_run(s, det, draws, r),
            next_round(dec, det, draws),
            supplied(dec),
            r as int,
            rounds_allowed(dec),
        ),
    decreases rounds_allowed(dec) - r,
{
    let step = next_round(dec, det, draws);
    let done = supplied(dec);
    let n = rounds_allowed(dec);
    if r >= n {
        lemma_passes_none(s, step, done, r as int, n);
        seq![s]
    } else {
        let t = dec.round(s, det, r, draws[r as int]);
        assert(step(r as int, s) == t);
        if t.collected.len() >= dec.wanted() {
            lemma_passes_once(s, step, done, r as int, n);
            seq![s, t]
        } else {
            let path = lemma_rounds(dec, t, det, draws, r + 1);
            let end = dec.rounds_run(s, det, draws, r);
            lemma_passes_longer(path, s, end, step, done, r as int, n);
            seq![s] + path
        }
    }
}

/// A search whose first phase found enough solutions ends with it. Otherwise generations
/// follow, or rounds of biased relay, each from where the one before ended, until there are
/// enough solutions or the parameters allow no more. A search that is observed has generations
/// in any case.
pub proof fn law_searched(dec: SLGMBPDecoder, det: Seq<Bit>, draws: SearchDraws, observe: bool)
    ensures
        ({
            let first = dec.phase1(det, draws.population@, observe);
            let end = dec.searched(det, draws, observe);
            let from = SearchModel { total: first.phase1, ..first };
            &&& first.collected.len() >= sought(dec) ==> end == first
            &&& first.collected.len() < sought(dec) && dec.config.biased_relay_mode && !observe
                ==> exists|path: Seq<SearchModel>| #[trigger]
                passes(
                    path,
                    from,
                    end,
                    next_round(dec, det, draws.generations@),
                    supplied(dec),
                    0,
                    rounds_allowed(dec),
                )
            &&& first.collected.len() < sought(dec) && !(dec.config.biased_relay_mode && !observe)
                ==> exists|path: Seq<SearchModel>| #[trigger]
                passes(
                    path,
                    from,
                    end,
                    next_layer(dec, det, draws.generations@, observe),
                    supplied(dec),
                    0,
                    dec.config.g_max as int,
                )
        }),
{
    let first = dec.phase1(det, draws.population@, observe);
    let from = SearchModel { total: first.phase1, ..first };
    if first.collected.len() < sought(dec) {
        if dec.config.biased_relay_mode && !observe {
            let path = lemma_rounds(dec, from, det, draws.generations@, 0);
            assert(passes(
                path,
                from,
                dec.searched(det, draws, observe),
                next_round(dec, det, draws.generations@),
                supplied(dec),
                0,
                rounds_allowed(dec),
            ));
        } else {
            let path = lemma_generations(dec, from, det, draws.generations@, 0, observe);
            assert(passes(
                path,
                from,
                dec.searched(det, draws, observe),
                next_layer(dec, det, draws.generations@, observe),
                supplied(dec),
                0,
                dec.config.g_max as int,
            ));
        }
    }
}

/// A search succeeds exactly if it collected enough solutions, and then returns one of those
/// that count; otherwise it returns the outcome with the best score.
pub proof fn law_verdict_of_search(dec: SLGMBPDecoder, s: SearchModel)
    ensures
        ({
            let r = dec.verdict(s);
            let enough = s.collected.len() >= sought(dec);
            &&& r.success == enough
            &&& enough ==> r.decoding == dec.taken(s.collected).decoding && r.posterior
                == dec.taken(s.collected).posterior
            &&& !enough ==> r.decoding == s.best_decoding && r.posterior == s.best_posterior
            &&& !enough ==> r.iterations == s.total
            &&& r.decoded_detectors == dec.check_matrix@.mul_mod2(r.decoding)
            &&& r.quality == decoding_quality(dec.base_min_sum_config@.priors, r.decoding)
        }),
{
}

/// What becomes of a member in a round of biased relay after its legs. One that explains the
/// detectors is a solution, found after the iterations of the rounds before and its own. In the
/// first round every member stays with the posteriors that its legs ended with; later those
/// stay that a constant leg did not explain and that did not end the round.
pub proof fn law_round_member(
    dec: SLGMBPDecoder,
    round: RoundModel,
    det: Seq<Bit>,
    child: MemberModel,
    draws: MemberDraws,
    first: bool,
)
    ensures
        ({
            let s = round.search;
            let next = dec.round_step(round, det, child, draws, first);
            let member = dec.readied(dec.first_prior(), child, s.threshold, draws);
            let run = dec.member_run(det, member, s.threshold, draws);
            let p = run.phase;
            let score = scored(dec, det, p, confidence(p.posterior));
            let left = residual(dec.check_matrix@.mul_mod2(p.decoding), det);
            let solved = run.constant || run.converged;
            let stays = first || !(run.constant || next.stopped);
            let counts = first || !run.constant;
            &&& keeps_best(s, next.search, p, score)
            &&& next.search.members == s.members
            &&& next.search.collected == s.collected
            &&& next.search.total == s.total
            &&& next.search.threshold == s.threshold
            &&& counts ==> next.search.residuals == s.residuals.push(left as usize)
            &&& !counts ==> next.search.residuals == s.residuals
            &&& next.stopped == (run.converged && !(
            dec.config.solution_collection_mode is PostSelection))
            &&& next.iterations == round.iterations + run.iterations
            &&& next.longest >= run.longest && next.longest >= round.longest
            &&& next.longest == run.longest || next.longest == round.longest
            &&& counts && score > round.best ==> next.best == score
            &&& !counts || score <= round.best ==> next.best == round.best
            &&& next.scored == (round.scored || counts)
            &&& solved ==> {
                &&& next.found == round.found.push(next.found.last())
                &&& next.found.last().discovery == s.total + run.iterations
                &&& next.found.last().decoding == p.decoding
                &&& next.found.last().posterior == p.posterior
                &&& next.found.last().cost == cost(p.decoding, dec.first_prior())
            }
            &&& !solved ==> next.found == round.found
            &&& !stays ==> next.next == round.next
            &&& stays ==> {
                &&& next.next == round.next.push(next.next.last())
                &&& next.next.last().posterior == p.posterior
                &&& next.next.last().fitness == score
                &&& next.next.last().perturbation == member.perturbation
                &&& next.next.last().adaptive_prior == member.adaptive_prior
                &&& next.next.last().mask == member.mask
                &&& !first ==> next.next.last().adjacent.len() == 0
                &&& first ==> next.next.last().adjacent == member.adjacent
            }
        }),
{
}

/// Decoding the next member of a round.
pub open spec fn next_member(
    dec: SLGMBPDecoder,
    det: Seq<Bit>,
    children: Seq<MemberModel>,
    draws: Seq<MemberDraws>,
    r: nat,
) -> spec_fn(int, RoundModel) -> RoundModel {
    |k: int, l: RoundModel| dec.round_step(l, det, children[k], draws[k], r == 0)
}

/// The round was ended.
pub open spec fn round_stopped() -> spec_fn(RoundModel) -> bool {
    |l: RoundModel| l.stopped
}

proof fn lemma_members(
    dec: SLGMBPDecoder,
    round: RoundModel,
    det: Seq<Bit>,
    children: Seq<MemberModel>,
    draws: Seq<MemberDraws>,
    k: nat,
    r: nat,
) -> (path: Seq<RoundModel>)
    requires
        !round.stopped,
    ensures
        passes(
            path,
            round,
            dec.round_run(round, det, children, draws, k, r == 0),
            next_member(dec, det, children, draws, r),
            round_stopped(),
            k as int,
            children.len() as int,
        ),
    decreases children.len() - k,
{
    let step = next_member(dec, det, children, draws, r);
    let done = round_stopped();
    let n = children.len() as int;
    if k >= children.len() {
        lemma_passes_none(round, step, done, k as int, n);
        seq![round]
    } else {
        let t = dec.round_step(round, det, children[k as int], draws[k as int], r == 0);
        let end = dec.round_run(round, det, children, draws, k, r == 0);
        assert(step(k as int, round) == t);
        assert(end == dec.round_run(t, det, children, draws, k + 1, r == 0));
        if t.stopped {
            lemma_passes_once(round, step, done, k as int, n);
            seq![round, t]
        } else {
            let path = lemma_members(dec, t, det, children, draws, k + 1, r);
            lemma_passes_longer(path, round, end, step, done, k as int, n);
            seq![round] + path
        }
    }
}

/// The first round of biased relay decodes the members of the search, each later one a new
/// generation of them. Their solutions are added to those collected before. If there are
/// enough, the search ends as it stands; otherwise those that stay take the place of the
/// members, and after a later round the threshold moves on.
pub proof fn law_round(
    dec: SLGMBPDecoder,
    s: SearchModel,
    det: Seq<Bit>,
    r: nat,
    draws: GenerationDraws,
)
    ensures
        ({
            let t = dec.round(s, det, r, draws);
            exists|
                children: Seq<MemberModel>,
                path: Seq<RoundModel>,
                start: RoundModel,
                end: RoundModel,
            |
                {
                    let done = t.collected.len() >= sought(dec);
                    &&& #[trigger] passes(
                        path,
                        start,
                        end,
                        next_member(dec, det, children, draws.members@, r),
                        round_stopped(),
                        0,
                        children.len() as int,
                    )
                    &&& r == 0 ==> children == s.members
                    &&& r > 0 ==> children == dec.config.next_generation(
                        s.members,
                        draws.children@,
                    )
                    &&& start.search == s
                    &&& start.next.len() == 0
                    &&& start.found.len() == 0
                    &&& start.best == i128::MIN
                    &&& start.iterations == 0
                    &&& start.longest == 0
                    &&& t.collected == end.search.collected + end.found
                    &&& t.best_decoding == end.search.best_decoding
                    &&& t.best_posterior == end.search.best_posterior
                    &&& t.best_fitness == end.search.best_fitness
                    &&& t.total == end.search.total + end.iterations
                    &&& done ==> t.members == end.search.members && t.threshold
                        == end.search.threshold
                    &&& !done ==> t.members == end.next
                    &&& !done && r == 0 ==> t.threshold == end.search.threshold
                    &&& !done && r > 0 ==> t.threshold == dec.next_threshold(
                        end.search.threshold,
                        end.longest,
                    )
                }
        }),
{
    let children = if r == 0 {
        s.members
    } else {
        dec.config.next_generation(s.members, draws.children@)
    };
    let start = dec.first_round(s);
    let path = lemma_members(dec, start, det, children, draws.members@, 0, r);
    let end = dec.round_run(start, det, children, draws.members@, 0, r == 0);
    assert(passes(
        path,
        start,
        end,
        next_member(dec, det, children, draws.members@, r),
        round_stopped(),
        0,
        children.len() as int,
    ));
}

/// The mean of a list is its sum by its length, rounded towards zero.
pub proof fn law_mean(values: Seq<i64>)
    requires
        values.len() > 0,
        forall|i: int| 0 <= i < values.len() ==> i64::MIN < #[trigger] values[i],
    ensures
        rounded(mean(values) as int, sum(values), values.len() as int),
{
    let n = values.len() as int;
    law_quotient(sum(values), n);
    lemma_sum_in(values);
    let q = trunc_div(sum(values), n);
    assert(-i64::MAX <= q <= i64::MAX) by (nonlinear_arith)
        requires
            rounded(q, sum(values), n),
            -(n * i64::MAX) <= sum(values) <= n * i64::MAX,
            n > 0,
    ;
}

proof fn lemma_sum_in(values: Seq<i64>)
    requires
        forall|i: int| 0 <= i < values.len() ==> i64::MIN < #[trigger] values[i],
    ensures
        -(values.len() * i64::MAX) <= sum(values) <= values.len() * i64::MAX,
    decreases values.len(),
{
    if values.len() > 0 {
        let t = values.drop_last();
        assert forall|i: int| 0 <= i < t.len() implies i64::MIN < #[trigger] t[i] by {
            assert(values[i] > i64::MIN);
        }
        lemma_sum_in(t);
        assert(values[values.len() - 1] > i64::MIN);
    }
}

/// The solutions that count are as many as are sought, if there are as many. Each is one that
/// was collected, and none that was collected and does not count was found before one that
/// does.
pub proof fn law_accepted(dec: SLGMBPDecoder, s: Seq<SolutionModel>)
    requires
        countable(s),
        s.len() > 0,
    ensures
        dec.accepted(s).len() == (if s.len() <= sought(dec) {
            s.len()
        } else {
            sought(dec)
        }),
        forall|k: int| 0 <= k < dec.accepted(s).len() ==> s.contains(#[trigger] dec.accepted(s)[k]),
        forall|x: SolutionModel, k: int|
            s.contains(x) && !dec.accepted(s).contains(x) && 0 <= k < dec.accepted(s).len()
                ==> #[trigger] dec.accepted(s)[k].discovery <= (#[trigger] x.discovery),
        dec.accepted(s).contains(dec.taken(s)),
        dec.config.final_solution_selection is Fastest ==> dec.taken(s) == dec.accepted(s)[0],
        s.len() >= sought(dec) ==> forall|t: SearchModel|
            t.collected == s ==> #[trigger] dec.verdict(t).iterations == dec.accepted(
                s,
            ).last().discovery,
{
    let keys = found_keys(s);
    law_less_comes_first(keys);
    let r = order(keys);
    let a = dec.accepted(s);
    assert forall|k: int| 0 <= k < a.len() implies s.contains(#[trigger] a[k]) by {
        assert(a[k] == s[r[k] as int]);
    }
    assert forall|x: SolutionModel, k: int|
        s.contains(x) && !a.contains(x) && 0 <= k < a.len() implies #[trigger] a[k].discovery <= (
    #[trigger] x.discovery) by {
        let i = choose|i: int| 0 <= i < s.len() && s[i] == x;
        lemma_reaches(r, s.len(), i);
        let j = choose|j: int| 0 <= j < r.len() && r[j] == i as usize;
        if j < a.len() {
            assert(a[j] == x);
        }
        let p = r[k] as int;
        assert(s[p].discovery <= usize::MAX && s[i].discovery <= usize::MAX);
        assert(keys[p].0 <= keys[i].0);
    }
    let q = order(cost_keys(a));
    law_less_comes_first(cost_keys(a));
    assert(q[0] < a.len());
    assert(a[0] == a[0]);
    if dec.config.final_solution_selection is Fastest {
        assert(a.contains(a[0]));
    } else {
        assert(a.contains(a[q[0] as int]));
    }
}

/// What the first phase without memory counts as confidence: the magnitude of the sum of all
/// posteriors after every iteration, in all.
pub proof fn law_drift(d: BpModel, det: Seq<Bit>, n: nat)
    requires
        n > 0,
    ensures
        drift(d, det, 0) == 0,
        ({
            let next = d.iterate(det, Seq::empty());
            let counted = BpModel { iteration: d.iteration + 1, ..next };
            &&& explains(next, det) ==> drift(d, det, n) == abs(sum(next.posterior))
            &&& !explains(next, det) ==> drift(d, det, n) == abs(sum(next.posterior)) + drift(
                counted,
                det,
                (n - 1) as nat,
            )
        }),
{
}

} // verus!
