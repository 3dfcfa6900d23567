//! How a generational search scores its members, chooses parents and makes children.

use vstd::prelude::*;

use crate::arith::{abs, bound};
use crate::laws::iteration::{held, law_quotient, rounded};
use crate::laws::search_leg::tossed;
use crate::matrix::Bit;
use crate::order::{increasing, law_order, law_sorted_set, order, precedes, Key};
use crate::slg_mbp::adapt::SLGMBPDecoder;
use crate::slg_mbp::config::SLGMBPDecoderConfig;
use crate::slg_mbp::evaluate::{
    confidence, confidence_below, fitness, low_below, low_count, mismatches, residual,
    CONFIDENCE_LIMIT,
};
use crate::slg_mbp::ga_ops::{
    best_below, drawn, entrant, rank_keys, rank_weights, ranked, reached_from, weight_below, winner,
    ChildDraws, MemberModel, ParentDraw,
};

verus! {

/// Ordering puts less before more: by the first number, then by the second, then by place.
/// Every place occurs once.
pub proof fn law_less_comes_first(keys: Seq<Key>)
    requires
        keys.len() <= usize::MAX,
    ensures
        order(keys).len() == keys.len(),
        order(keys).no_duplicates(),
        forall|a: int| 0 <= a < keys.len() ==> (#[trigger] order(keys)[a]) < keys.len(),
        forall|a: int, b: int|
            0 <= a < b < keys.len() ==> {
                let i = #[trigger] order(keys)[a];
                let j = #[trigger] order(keys)[b];
                let x = keys[i as int];
                let y = keys[j as int];
                ||| x.0 < y.0
                ||| x.0 == y.0 && x.1 < y.1
                ||| x == y && i < j
            },
{
    law_order(keys, keys.len());
    let r = order(keys);
    assert forall|a: int, b: int| 0 <= a < b < keys.len() implies {
        let i = #[trigger] order(keys)[a];
        let j = #[trigger] order(keys)[b];
        let x = keys[i as int];
        let y = keys[j as int];
        ||| x.0 < y.0
        ||| x.0 == y.0 && x.1 < y.1
        ||| x == y && i < j
    } by {
        assert(precedes(keys, r[a], r[b]));
    }
}

/// Members are ranked from the best score to the worst; of two that score the same the earlier
/// one comes first.
pub proof fn law_ranked(pop: Seq<MemberModel>)
    requires
        pop.len() <= usize::MAX,
        forall|i: int| 0 <= i < pop.len() ==> i128::MIN < (#[trigger] pop[i]).fitness <= i128::MAX,
    ensures
        ranked(pop).len() == pop.len(),
        ranked(pop).no_duplicates(),
        forall|a: int| 0 <= a < pop.len() ==> (#[trigger] ranked(pop)[a]) < pop.len(),
        forall|a: int, b: int|
            0 <= a < b < pop.len() ==> {
                let i = #[trigger] ranked(pop)[a];
                let j = #[trigger] ranked(pop)[b];
                pop[i as int].fitness > pop[j as int].fitness || (pop[i as int].fitness
                    == pop[j as int].fitness && i < j)
            },
{
    let keys = rank_keys(pop);
    law_less_comes_first(keys);
    let r = ranked(pop);
    assert forall|a: int, b: int| 0 <= a < b < pop.len() implies {
        let i = #[trigger] ranked(pop)[a];
        let j = #[trigger] ranked(pop)[b];
        pop[i as int].fitness > pop[j as int].fitness || (pop[i as int].fitness
            == pop[j as int].fitness && i < j)
    } by {
        let i = r[a] as int;
        let j = r[b] as int;
        assert(i128::MIN < pop[i].fitness <= i128::MAX);
        assert(i128::MIN < pop[j].fitness <= i128::MAX);
        assert(keys[i].0 < keys[j].0 || (keys[i] == keys[j] && i < j));
    }
}

/// The member that entrant `k` of a tournament is, counting round the population.
pub open spec fn seat(entrants: Seq<usize>, m: nat, k: int) -> int {
    entrants[k] as int % m as int
}

/// Entrant `k` is beaten by none of the first `n`, and beats all before it.
pub open spec fn wins(pop: Seq<MemberModel>, entrants: Seq<usize>, n: int, k: int) -> bool {
    &&& 0 <= k < n
    &&& forall|j: int|
        0 <= j < n ==> {
            let rival = pop[#[trigger] seat(entrants, pop.len(), j)].fitness;
            let best = pop[seat(entrants, pop.len(), k)].fitness;
            rival <= best && (j < k ==> rival < best)
        }
}

/// A tournament is won by an entrant that no other beats, the first of them.
pub proof fn law_tournament(pop: Seq<MemberModel>, entrants: Seq<usize>, n: int)
    requires
        pop.len() > 0,
        1 <= n <= entrants.len(),
    ensures
        exists|k: int| #[trigger]
            wins(pop, entrants, n, k) && winner(pop, entrants, n) == seat(entrants, pop.len(), k),
    decreases n,
{
    let m = pop.len();
    if n == 1 {
        assert(wins(pop, entrants, n, 0));
        assert(winner(pop, entrants, n) == entrant(entrants, m, 0));
    } else {
        law_tournament(pop, entrants, n - 1);
        let w = winner(pop, entrants, n - 1);
        let k = choose|k: int| #[trigger]
            wins(pop, entrants, n - 1, k) && w == seat(entrants, m, k);
        let e = seat(entrants, m, n - 1);
        assert(e == entrant(entrants, m, n - 1));
        if pop[e].fitness > pop[w].fitness {
            assert(winner(pop, entrants, n) == e);
            assert(wins(pop, entrants, n, n - 1));
        } else {
            assert(winner(pop, entrants, n) == w);
            assert(wins(pop, entrants, n, k));
        }
    }
}

proof fn lemma_reached(weights: Seq<u64>, ticket: u64, pos: int)
    requires
        0 <= pos < weights.len(),
    ensures
        ({
            let k = reached_from(weights, ticket, pos);
            let all = weight_below(weights, weights.len() as int);
            &&& pos <= k < weights.len()
            &&& forall|j: int|
                pos <= j < k ==> #[trigger] weight_below(weights, j + 1) * 0x1_0000_0000_0000_0000
                    < ticket * all
            &&& k < weights.len() - 1 ==> weight_below(weights, k + 1) * 0x1_0000_0000_0000_0000
                >= ticket * all
        }),
    decreases weights.len() - pos,
{
    if pos + 1 < weights.len() && !(weight_below(weights, pos + 1) * 0x1_0000_0000_0000_0000
        >= ticket * weight_below(weights, weights.len() as int)) {
        lemma_reached(weights, ticket, pos + 1);
    }
}

/// A ticket, as a fraction of all weight, draws the first place up to which the weights add up
/// to that fraction.
pub proof fn law_drawn(weights: Seq<u64>, ticket: u64)
    requires
        weights.len() > 0,
    ensures
        ({
            let k = drawn(weights, ticket);
            let all = weight_below(weights, weights.len() as int);
            &&& 0 <= k < weights.len()
            &&& forall|j: int|
                0 <= j < k ==> #[trigger] weight_below(weights, j + 1) * 0x1_0000_0000_0000_0000
                    < ticket * all
            &&& k < weights.len() - 1 ==> weight_below(weights, k + 1) * 0x1_0000_0000_0000_0000
                >= ticket * all
        }),
        weight_below(weights, 0) == 0,
        forall|j: int|
            0 <= j < weights.len() ==> #[trigger] weight_below(weights, j + 1) == weight_below(
                weights,
                j,
            ) + weights[j],
{
    lemma_reached(weights, ticket, 0);
}

proof fn lemma_best(pop: Seq<MemberModel>, n: int)
    requires
        1 <= n <= pop.len(),
    ensures
        forall|i: int| 0 <= i < n ==> (#[trigger] pop[i]).fitness <= best_below(pop, n),
        exists|i: int| 0 <= i < n && (#[trigger] pop[i]).fitness == best_below(pop, n),
    decreases n,
{
    if n == 1 {
        assert(pop[0].fitness == best_below(pop, n));
    } else {
        lemma_best(pop, n - 1);
        let i = choose|i: int|
            0 <= i < n - 1 && (#[trigger] pop[i]).fitness == best_below(pop, n - 1);
        if pop[n - 1].fitness > best_below(pop, n - 1) {
            assert(pop[n - 1].fitness == best_below(pop, n));
        } else {
            assert(pop[i].fitness == best_below(pop, n));
        }
    }
}

/// Weights by score fall step by step with the distance from the best score: a member that is
/// `k` whole steps behind gets the `k`-th weight, one beyond the list the last.
pub proof fn law_softmax(config: SLGMBPDecoderConfig, pop: Seq<MemberModel>, i: int)
    requires
        config.can_weigh(),
        0 <= i < pop.len(),
    ensures
        config.softmax_of(pop).len() == pop.len(),
        exists|top: int, k: int|
            #![trigger pop[top], config.softmax_weights[k]]
            {
                let step = config.softmax_step as int;
                let behind = pop[top].fitness - pop[i].fitness;
                let last = config.softmax_weights.len() - 1;
                &&& 0 <= top < pop.len()
                &&& forall|j: int| 0 <= j < pop.len() ==> (#[trigger] pop[j]).fitness
                    <= pop[top].fitness
                &&& 0 <= k <= last
                &&& k * step <= behind
                &&& k < last ==> behind < (k + 1) * step
                &&& config.softmax_of(pop)[i] == config.softmax_weights[k]
            },
{
    let n = pop.len() as int;
    lemma_best(pop, n);
    let top = choose|t: int| 0 <= t < n && (#[trigger] pop[t]).fitness == best_below(pop, n);
    let step = config.softmax_step as int;
    let behind = pop[top].fitness - pop[i].fitness;
    let q = behind / step;
    let last = config.softmax_weights.len() - 1;
    assert(q * step <= behind < (q + 1) * step && q >= 0) by (nonlinear_arith)
        requires
            q == behind / step,
            step > 0,
            behind >= 0,
    ;
    let k = if q <= last {
        q
    } else {
        last
    };
    assert(k * step <= q * step) by (nonlinear_arith)
        requires
            k <= q,
            step > 0,
    ;
    assert(config.softmax_of(pop)[i] == config.softmax_weights[k]);
}

/// How a parent is chosen: by tournament among as many entrants as are asked for, two at
/// least; by the weight of its score; or by the weight of its rank, the best of `m` weighing
/// `m` and the worst one.
pub proof fn law_parent(config: SLGMBPDecoderConfig, pop: Seq<MemberModel>, draw: ParentDraw)
    requires
        0 < pop.len() <= u32::MAX,
    ensures
        config.selection_mode is Tournament ==> config.parent(pop, draw) == winner(
            pop,
            draw.entrants@,
            if config.tournament_size <= 2 {
                2
            } else {
                config.tournament_size as int
            },
        ),
        config.selection_mode is Weighted && config.weighted_selection_mode is Softmax
            ==> config.parent(pop, draw) == drawn(config.softmax_of(pop), draw.ticket),
        config.selection_mode is Weighted && config.weighted_selection_mode is Rank ==> exists|
            weights: Seq<u64>,
        |
            {
                &&& config.parent(pop, draw) == ranked(pop)[#[trigger] drawn(
                    weights,
                    draw.ticket,
                )] as int
                &&& weights.len() == pop.len()
                &&& forall|p: int|
                    0 <= p < pop.len() ==> #[trigger] weights[p] + p == pop.len()
            },
{
    let weights = rank_weights(pop.len());
    let k = drawn(weights, draw.ticket);
    if config.selection_mode is Weighted && config.weighted_selection_mode is Rank {
        assert(config.parent(pop, draw) == ranked(pop)[k] as int);
        assert(forall|p: int| 0 <= p < pop.len() ==> #[trigger] weights[p] + p == pop.len());
    }
}

/// A child takes every variable from one of its parents, from the first where the coin says
/// so. Its sign turns exactly if it is nearer to zero than the threshold of mutation and its
/// coin says so.
pub proof fn law_child(
    config: SLGMBPDecoderConfig,
    a: MemberModel,
    b: MemberModel,
    draws: ChildDraws,
    v: int,
)
    requires
        0 <= v < a.posterior.len(),
        a.posterior.len() == b.posterior.len(),
        a.posterior[v] > i64::MIN,
        b.posterior[v] > i64::MIN,
    ensures
        ({
            let c = config.child(a, b, draws);
            let inherited = if tossed(draws.from_first@, v) {
                a.posterior[v]
            } else {
                b.posterior[v]
            };
            let mutates = tossed(draws.mutates@, v) && abs(inherited as int)
                < config.mutation_llr_abs_threshold;
            &&& c.posterior.len() == a.posterior.len()
            &&& !mutates ==> c.posterior[v] == inherited
            &&& mutates ==> c.posterior[v] == -inherited
            &&& c.fitness == 0
            &&& c.adaptive_prior is None
            &&& c.mask is None
            &&& increasing(c.adjacent)
            &&& forall|y: usize|
                #[trigger] c.adjacent.contains(y) <==> a.adjacent.contains(y)
                    || b.adjacent.contains(y)
            &&& config.perturbation_method is Resample ==> c.perturbation is Unperturbed
            &&& config.perturbation_method is Fixed && draws.state_from_first ==> c.perturbation
                == a.perturbation
            &&& config.perturbation_method is Fixed && !draws.state_from_first ==> c.perturbation
                == b.perturbation
        }),
{
    let both = a.adjacent + b.adjacent;
    law_sorted_set(both);
    assert forall|y: usize| #[trigger] both.contains(y) <==> a.adjacent.contains(y)
        || b.adjacent.contains(y) by {
        if a.adjacent.contains(y) {
            let k = choose|k: int| 0 <= k < a.adjacent.len() && a.adjacent[k] == y;
            assert(both[k] == y);
        }
        if b.adjacent.contains(y) {
            let k = choose|k: int| 0 <= k < b.adjacent.len() && b.adjacent[k] == y;
            assert(both[a.adjacent.len() + k] == y);
        }
    }
}

/// The next generation is as large as the last. Its first members are the best of the last, as
/// many as the elite has, unchanged; every other is a child of two parents. Where generations
/// consist of copies, each is a copy of a member by rank that keeps its posterior and its
/// surroundings alone.
pub proof fn law_next_generation(
    config: SLGMBPDecoderConfig,
    pop: Seq<MemberModel>,
    draws: Seq<ChildDraws>,
    k: int,
)
    requires
        0 <= k < pop.len(),
    ensures
        ({
            let next = config.next_generation(pop, draws);
            &&& next.len() == pop.len()
            &&& !config.sequential_mc && k < config.elite_count ==> next[k]
                == pop[ranked(pop)[k] as int]
            &&& !config.sequential_mc && k >= config.elite_count ==> next[k] == config.child(
                pop[config.parent(pop, draws[k].first)],
                pop[config.parent(pop, draws[k].second)],
                draws[k],
            )
            &&& config.sequential_mc ==> {
                let of = pop[ranked(pop)[config.source(pop.len(), k)] as int];
                &&& next[k].posterior == of.posterior
                &&& next[k].adjacent == of.adjacent
                &&& next[k].fitness == 0
                &&& next[k].perturbation is Unperturbed
                &&& next[k].adaptive_prior is None
                &&& next[k].mask is None
            }
        }),
{
}

/// The number of copies of the better members by which rank `s` is preceded, where every
/// member gets `base` and the best `extra` of them one more.
pub open spec fn copies_before(s: int, base: int, extra: int) -> int {
    s * base + if s < extra {
        s
    } else {
        extra
    }
}

/// Copies are shared out evenly: after one copy of each member of the elite, each gets the
/// same number, the best ones one more if there is a rest.
pub proof fn law_copies_shared(config: SLGMBPDecoderConfig, m: nat, k: int)
    requires
        0 <= k < m,
    ensures
        ({
            let e = if config.elite_count < 1 {
                1
            } else if config.elite_count > m {
                m as int
            } else {
                config.elite_count as int
            };
            let s = config.source(m, k);
            &&& k < e ==> s == k
            &&& k >= e ==> exists|base: int, extra: int|
                {
                    &&& e * base + extra == m - e
                    &&& 0 <= extra < e
                    &&& 0 <= s < e
                    &&& #[trigger] copies_before(s, base, extra) <= k - e < copies_before(
                        s + 1,
                        base,
                        extra,
                    )
                }
        }),
{
    let e = config.source_count(m);
    if k >= e {
        let rest = m - e;
        let base = rest / e;
        let extra = rest % e;
        let j = k - e;
        vstd::arithmetic::div_mod::lemma_fundamental_div_mod(rest, e);
        assert(0 <= extra < e) by (nonlinear_arith)
            requires
                extra == rest % e,
                e > 0,
        ;
        assert(base >= 0) by (nonlinear_arith)
            requires
                base == rest / e,
                rest >= 0,
                e > 0,
        ;
        let s = config.source(m, k);
        if j < extra * (base + 1) {
            assert(0 <= s < extra && s * (base + 1) <= j < (s + 1) * (base + 1)) by (nonlinear_arith)
                requires
                    s == j / (base + 1),
                    0 <= j < extra * (base + 1),
                    base >= 0,
            ;
            assert(s * (base + 1) == s * base + s) by (nonlinear_arith);
            assert((s + 1) * (base + 1) == (s + 1) * base + s + 1) by (nonlinear_arith);
        } else {
            let b = j - extra * (base + 1);
            let t = b / base;
            assert(base > 0) by (nonlinear_arith)
                requires
                    b >= 0,
                    b == j - extra * (base + 1),
                    j < rest,
                    rest == e * base + extra,
                    base >= 0,
            ;
            assert(b < (e - extra) * base) by (nonlinear_arith)
                requires
                    b == j - extra * (base + 1),
                    j < rest,
                    rest == e * base + extra,
            ;
            assert(0 <= t < e - extra && t * base <= b < (t + 1) * base) by (nonlinear_arith)
                requires
                    t == b / base,
                    0 <= b < (e - extra) * base,
                    base > 0,
            ;
            assert(s == extra + t);
            assert(s * base + extra == t * base + extra * (base + 1)) by (nonlinear_arith)
                requires
                    s == extra + t,
            ;
            assert((s + 1) * base + extra == (t + 1) * base + extra * (base + 1)) by (nonlinear_arith)
                requires
                    s == extra + t,
            ;
        }
        assert(copies_before(s, base, extra) <= k - e < copies_before(s + 1, base, extra));
    }
}

/// The number of checks that are not explained, bit by bit.
pub proof fn law_residual(a: Seq<Bit>, b: Seq<Bit>, x: Bit, y: Bit)
    requires
        a.len() == b.len(),
    ensures
        residual(Seq::empty(), Seq::empty()) == 0,
        residual(a.push(x), b.push(y)) == residual(a, b) + (if x == y {
            0nat
        } else {
            1
        }),
        residual(a, b) == 0 <==> a == b,
{
    lemma_mismatches_take(a.push(x), b.push(y), a, b, a.len() as int);
    lemma_residual_zero(a, b, a.len() as int);
    assert(a == b <==> forall|i: int| 0 <= i < a.len() ==> a[i] == b[i]) by {
        if forall|i: int| 0 <= i < a.len() ==> a[i] == b[i] {
            assert(a =~= b);
        }
    }
}

proof fn lemma_mismatches_take(a: Seq<Bit>, b: Seq<Bit>, c: Seq<Bit>, d: Seq<Bit>, n: int)
    requires
        forall|i: int| 0 <= i < n ==> a[i] == c[i] && b[i] == d[i],
    ensures
        mismatches(a, b, n) == mismatches(c, d, n),
    decreases n,
{
    if n > 0 {
        lemma_mismatches_take(a, b, c, d, n - 1);
    }
}

proof fn lemma_residual_zero(a: Seq<Bit>, b: Seq<Bit>, n: int)
    ensures
        mismatches(a, b, n) == 0 <==> forall|i: int| 0 <= i < n ==> a[i] == b[i],
    decreases n,
{
    if n > 0 {
        lemma_residual_zero(a, b, n - 1);
    }
}

/// Confidence adds up magnitudes, and the uncertain variables are those of a magnitude up to
/// the threshold.
pub proof fn law_confidence(values: Seq<i64>, x: i64, threshold: int)
    ensures
        confidence(Seq::empty()) == 0,
        confidence(values.push(x)) == confidence(values) + abs(x as int),
        low_count(Seq::empty(), threshold) == 0,
        low_count(values.push(x), threshold) == low_count(values, threshold) + (if abs(x as int)
            <= abs(threshold) {
            1nat
        } else {
            0
        }),
{
    lemma_confidence_take(values.push(x), values, abs(threshold), values.len() as int);
}

proof fn lemma_confidence_take(a: Seq<i64>, b: Seq<i64>, threshold: int, n: int)
    requires
        forall|i: int| 0 <= i < n ==> a[i] == b[i],
    ensures
        confidence_below(a, n) == confidence_below(b, n),
        low_below(a, threshold, n) == low_below(b, threshold, n),
    decreases n,
{
    if n > 0 {
        lemma_confidence_take(a, b, threshold, n - 1);
    }
}

/// A score falls by `alpha` with every check that is not explained, grows by `mu` with every
/// uncertain variable, and has the share `beta` of the confidence.
pub proof fn law_score(
    unexplained: nat,
    sure: int,
    low: nat,
    alpha: int,
    beta: int,
    mu: int,
    one: int,
)
    requires
        one >= 1,
    ensures
        fitness(unexplained + 1, sure, low, alpha, beta, mu, one) == fitness(
            unexplained,
            sure,
            low,
            alpha,
            beta,
            mu,
            one,
        ) - alpha,
        fitness(unexplained, sure, low + 1, alpha, beta, mu, one) == fitness(
            unexplained,
            sure,
            low,
            alpha,
            beta,
            mu,
            one,
        ) + mu,
        exists|c: int|
            #[trigger] held(c, sure, CONFIDENCE_LIMIT as int) && rounded(
                fitness(0, sure, 0, alpha, beta, mu, one),
                beta * c,
                one,
            ),
{
    let c = bound(sure, CONFIDENCE_LIMIT as int);
    law_quotient(beta * c, one);
    assert(held(c, sure, CONFIDENCE_LIMIT as int));
    assert(alpha * (unexplained + 1) == alpha * unexplained + alpha) by (nonlinear_arith);
    assert(mu * (low + 1) == mu * low + mu) by (nonlinear_arith);
    assert(alpha * 0 == 0 && mu * 0 == 0) by (nonlinear_arith);
}

/// The threshold of confidence stays where it is set, or grows from the least to the greatest
/// by what the length of a generation is worth.
pub proof fn law_threshold(dec: SLGMBPDecoder, current: int, iterations: nat)
    ensures
        ({
            let first = dec.first_threshold();
            let next = dec.next_threshold(current, iterations);
            let p = abs(dec.config.adaptive_perturbation_llr_threshold_min as int);
            let q = abs(dec.config.adaptive_perturbation_llr_threshold_max as int);
            let lo = if p <= q {
                p
            } else {
                q
            };
            let hi = if p <= q {
                q
            } else {
                p
            };
            let table = dec.config.adaptive_perturbation_llr_threshold_increments@;
            let worth: int = if table.len() == 0 {
                0
            } else if iterations < table.len() {
                table[iterations as int] as int
            } else {
                table[table.len() - 1] as int
            };
            if dec.config.adaptive_perturbation_llr_threshold_mode is Constant {
                &&& first == abs(dec.config.adaptive_perturbation_llr_threshold as int)
                &&& next == first
            } else {
                &&& first == lo
                &&& lo <= next <= hi
                &&& lo <= current <= hi && lo <= current + worth <= hi ==> next == current + worth
                &&& lo <= current <= hi && current + worth > hi ==> next == hi
                &&& lo <= current <= hi && current + worth < lo ==> next == lo
            }
        }),
{
}

/// The unit of a search is that of its min-sum decoder, and its priors are those of it.
pub proof fn law_search_units(dec: SLGMBPDecoder)
    ensures
        dec.base_min_sum_config.data_scale_value matches Some(s) ==> dec.one() == s,
        dec.base_min_sum_config.data_scale_value is None ==> dec.one() == 1,
        dec.priors() == dec.base_min_sum_config.log_prior_ratios@,
        dec.cols() == dec.check_matrix@.cols,
{
}

} // verus!
