//! Which estimate an ensemble takes, and what it compares it with.

use vstd::prelude::*;

use crate::decoder::ResultModel;
use crate::ensemble_decoder::{
    class_iterations_below, converged, converged_below, distances_below, first_least, leader_below,
    llr_below, llr_sum, mean_posterior, most_iterations, of_class, posterior_sum,
    spent_below, spent_squares_below, votes, votes_below, EnsembleRule,
};
use crate::laws::iteration::{law_quotient, rounded};
use crate::matrix::Bit;

verus! {

/// The weight of an estimate adds up the prior ratios of its errors.
pub proof fn law_weight_adds_up(decoding: Seq<Bit>, priors: Seq<i64>, bit: Bit, ratio: i64)
    requires
        decoding.len() == priors.len(),
    ensures
        llr_sum(Seq::empty(), Seq::empty()) == 0,
        bit == 1 ==> llr_sum(decoding.push(bit), priors.push(ratio)) == llr_sum(decoding, priors)
            + ratio,
        bit != 1 ==> llr_sum(decoding.push(bit), priors.push(ratio)) == llr_sum(decoding, priors),
{
    lemma_llr_take(decoding.push(bit), decoding, priors.push(ratio), priors, priors.len() as int);
}

proof fn lemma_llr_take(a: Seq<Bit>, b: Seq<Bit>, p: Seq<i64>, q: Seq<i64>, n: int)
    requires
        forall|i: int| 0 <= i < n ==> a[i] == b[i] && p[i] == q[i],
    ensures
        llr_below(a, p, n) == llr_below(b, q, n),
    decreases n,
{
    if n > 0 {
        lemma_llr_take(a, b, p, q, n - 1);
    }
}

/// The marked places of class `c`.
pub open spec fn voters(cosets: Seq<Seq<Bit>>, mask: Seq<bool>, c: Seq<Bit>) -> Set<int> {
    Set::new(|i: int| 0 <= i < mask.len() && mask[i] && cosets[i] == c)
}

/// The votes for a class are the marked places of it.
pub proof fn law_votes(cosets: Seq<Seq<Bit>>, mask: Seq<bool>, c: Seq<Bit>)
    ensures
        voters(cosets, mask, c).finite(),
        votes(cosets, mask, c) == voters(cosets, mask, c).len(),
{
    lemma_votes(cosets, mask, c, mask.len() as int);
    assert(mask.take(mask.len() as int) =~= mask);
}

proof fn lemma_votes(cosets: Seq<Seq<Bit>>, mask: Seq<bool>, c: Seq<Bit>, n: int)
    requires
        0 <= n <= mask.len(),
    ensures
        voters(cosets, mask.take(n), c).finite(),
        votes_below(cosets, mask, c, n) == voters(cosets, mask.take(n), c).len(),
    decreases n,
{
    let s = voters(cosets, mask.take(n), c);
    if n == 0 {
        assert(s =~= Set::empty());
    } else {
        lemma_votes(cosets, mask, c, n - 1);
        let t = voters(cosets, mask.take(n - 1), c);
        assert(!t.contains(n - 1));
        if mask[n - 1] && cosets[n - 1] == c {
            assert(s =~= t.insert(n - 1));
        } else {
            assert(s =~= t);
        }
    }
}

/// Which members may be taken: those that converged, up to the last one allowed if one of these
/// did. How estimates are weighed and told apart.
pub proof fn law_selectable(rule: EnsembleRule, results: Seq<ResultModel>, i: int)
    requires
        0 <= i < results.len(),
    ensures
        ({
            let inside = rule.max_index is None || i <= rule.max_index->0;
            let some_inside = exists|k: int|
                0 <= k < results.len() && (#[trigger] results[k]).success && (rule.max_index
                    is None || k <= rule.max_index->0);
            &&& rule.selectable(results).len() == results.len()
            &&& some_inside ==> rule.selectable(results)[i] == (results[i].success && inside)
            &&& !some_inside ==> rule.selectable(results)[i] == results[i].success
        }),
        rule.priors matches Some(p) ==> rule.llrs(results)[i] == llr_sum(
            results[i].decoding,
            p,
        ) as i128,
        rule.observables matches Some(m) ==> rule.cosets(results)[i] == m.mul_mod2(
            results[i].decoding,
        ),
{
    if exists|k: int| 0 <= k < results.len() && rule.in_range(k) && (#[trigger] results[k]).success {
        let k = choose|k: int|
            0 <= k < results.len() && rule.in_range(k) && (#[trigger] results[k]).success;
        assert(results[k].success && (rule.max_index is None || k <= rule.max_index->0));
    }
    if exists|k: int|
        0 <= k < results.len() && (#[trigger] results[k]).success && (rule.max_index is None || k
            <= rule.max_index->0) {
        let k = choose|k: int|
            0 <= k < results.len() && (#[trigger] results[k]).success && (rule.max_index is None
                || k <= rule.max_index->0);
        assert(rule.in_range(k));
    }
}

/// `s` is the first of least weight among the marked places.
pub open spec fn first_lightest(llrs: Seq<i128>, mask: Seq<bool>, s: int) -> bool {
    &&& 0 <= s < mask.len()
    &&& mask[s]
    &&& forall|i: int|
        0 <= i < mask.len() && #[trigger] mask[i] ==> llrs[s] <= llrs[i] && (i < s ==> llrs[s]
            < llrs[i])
}

pub proof fn lemma_first(values: Seq<i128>, mask: Seq<bool>, n: int)
    requires
        0 <= n <= mask.len(),
    ensures
        match first_least(values, mask, n) {
            Some(s) => first_lightest(values, mask.take(n), s),
            None => forall|i: int| 0 <= i < n ==> !#[trigger] mask[i],
        },
    decreases n,
{
    if n > 0 {
        lemma_first(values, mask, n - 1);
        let a = mask.take(n - 1);
        let b = mask.take(n);
        assert forall|i: int| 0 <= i < n - 1 implies a[i] == #[trigger] b[i] by {}
    }
}

/// `w` is the first marked place whose class no marked class beats in votes.
pub open spec fn first_leader(cosets: Seq<Seq<Bit>>, mask: Seq<bool>, w: int) -> bool {
    &&& 0 <= w < mask.len()
    &&& mask[w]
    &&& forall|i: int|
        0 <= i < mask.len() && #[trigger] mask[i] ==> {
            let ours = voters(cosets, mask, cosets[w]).len();
            let theirs = voters(cosets, mask, cosets[i]).len();
            ours >= theirs && (i < w ==> ours > theirs)
        }
}

proof fn lemma_leader_first(cosets: Seq<Seq<Bit>>, mask: Seq<bool>, n: int)
    requires
        0 <= n <= mask.len(),
    ensures
        match leader_below(cosets, mask, n) {
            Some(w) => {
                &&& 0 <= w < n
                &&& mask[w]
                &&& forall|i: int|
                    0 <= i < n && #[trigger] mask[i] ==> votes(cosets, mask, cosets[w]) >= votes(
                        cosets,
                        mask,
                        cosets[i],
                    ) && (i < w ==> votes(cosets, mask, cosets[w]) > votes(cosets, mask, cosets[i]))
            },
            None => forall|i: int| 0 <= i < n ==> !#[trigger] mask[i],
        },
    decreases n,
{
    if n > 0 {
        lemma_leader_first(cosets, mask, n - 1);
    }
}

/// The estimate taken: by weight, the first of least weight among those that may be taken; by
/// votes, the first of least weight in the class with the most votes, the first such class if
/// there are several.
pub proof fn law_selected(rule: EnsembleRule, results: Seq<ResultModel>)
    ensures
        ({
            let mask = rule.selectable(results);
            let cosets = rule.cosets(results);
            let llrs = rule.llrs(results);
            rule.selected(results) matches Some(s) ==> {
                &&& rule.strategy is MostLikely ==> first_lightest(llrs, mask, s)
                &&& rule.strategy is MajorityVote ==> exists|w: int|
                    {
                        &&& #[trigger] first_leader(cosets, mask, w)
                        &&& first_lightest(
                            llrs,
                            Seq::new(mask.len(), |i: int| mask[i] && cosets[i] == cosets[w]),
                            s,
                        )
                    }
            }
        }),
{
    let mask = rule.selectable(results);
    let cosets = rule.cosets(results);
    let llrs = rule.llrs(results);
    let n = results.len() as int;
    assert(mask.len() == n);
    assert(mask.take(n) =~= mask);
    lemma_first(llrs, mask, n);
    lemma_leader_first(cosets, mask, n);
    if rule.strategy is MajorityVote && rule.selected(results) is Some {
        let w = leader_below(cosets, mask, n)->0;
        let same = of_class(cosets, mask, cosets[w], true);
        assert(same =~= Seq::new(mask.len(), |i: int| mask[i] && cosets[i] == cosets[w]));
        assert(same.take(n) =~= same);
        lemma_first(llrs, same, n);
        assert forall|i: int| 0 <= i < mask.len() && #[trigger] mask[i] implies ({
            let ours = voters(cosets, mask, cosets[w]).len();
            let theirs = voters(cosets, mask, cosets[i]).len();
            ours >= theirs && (i < w ==> ours > theirs)
        }) by {
            law_votes(cosets, mask, cosets[w]);
            law_votes(cosets, mask, cosets[i]);
        }
        assert(first_leader(cosets, mask, w));
    }
}

/// The gap of the estimate taken: by how much the lightest estimate of another class weighs
/// more; under voting, of the other class with the most votes. Without another class it is as
/// large as can be.
pub proof fn law_gap(rule: EnsembleRule, results: Seq<ResultModel>, s: int)
    requires
        0 <= s < results.len(),
    ensures
        ({
            let cosets = rule.cosets(results);
            let llrs = rule.llrs(results);
            let others = Seq::new(
                results.len(),
                |i: int| results[i].success && cosets[i] != cosets[s],
            );
            let gap = rule.gap(results, s);
            &&& (forall|i: int| 0 <= i < results.len() ==> !#[trigger] others[i]) ==> gap
                == i128::MAX
            &&& (exists|i: int| 0 <= i < results.len() && #[trigger] others[i]) ==> exists|r: int|
                {
                    &&& #[trigger] others[r]
                    &&& 0 <= r < results.len()
                    &&& -i128::MAX <= llrs[r] - llrs[s] <= i128::MAX ==> gap == llrs[r] - llrs[s]
                    &&& rule.strategy is MostLikely ==> first_lightest(llrs, others, r)
                    &&& rule.strategy is MajorityVote ==> exists|w: int|
                        {
                            &&& #[trigger] first_leader(cosets, others, w)
                            &&& first_lightest(
                                llrs,
                                Seq::new(
                                    results.len(),
                                    |i: int| results[i].success && cosets[i] == cosets[w],
                                ),
                                r,
                            )
                        }
                }
        }),
{
    let n = results.len() as int;
    let cosets = rule.cosets(results);
    let llrs = rule.llrs(results);
    let others = Seq::new(results.len(), |i: int| results[i].success && cosets[i] != cosets[s]);
    assert(rule.others(results, s) =~= others);
    assert(others.take(n) =~= others);
    lemma_first(llrs, others, n);
    lemma_leader_first(cosets, others, n);
    if exists|i: int| 0 <= i < results.len() && #[trigger] others[i] {
        if rule.strategy is MajorityVote {
            let w = leader_below(cosets, others, n)->0;
            let same = of_class(cosets, converged(results), cosets[w], true);
            assert(same =~= Seq::new(
                results.len(),
                |i: int| results[i].success && cosets[i] == cosets[w],
            ));
            assert(same.take(n) =~= same);
            lemma_first(llrs, same, n);
            assert(others[w]);
            assert(same[w]);
            assert forall|i: int| 0 <= i < others.len() && #[trigger] others[i] implies ({
                let ours = voters(cosets, others, cosets[w]).len();
                let theirs = voters(cosets, others, cosets[i]).len();
                ours >= theirs && (i < w ==> ours > theirs)
            }) by {
                law_votes(cosets, others, cosets[w]);
                law_votes(cosets, others, cosets[i]);
            }
            assert(first_leader(cosets, others, w));
            let r = first_least(llrs, same, n)->0;
            assert(first_lightest(llrs, same, r));
            assert(others[r]);
        } else {
            let r = first_least(llrs, others, n)->0;
            assert(others[r]);
        }
    }
}

/// The result of an ensemble is that of the member taken but for the gap. If none converged it
/// is that of the first, with the most iterations of any and without a gap.
pub proof fn law_combined(rule: EnsembleRule, results: Seq<ResultModel>)
    requires
        results.len() > 0,
    ensures
        rule.selected(results) matches Some(s) ==> rule.combined(results) == (ResultModel {
            gap: Some(rule.gap(results, s) as i128),
            ..results[s]
        }),
        rule.selected(results) is None ==> {
            let r = rule.combined(results);
            &&& r == (ResultModel { iterations: r.iterations, gap: None, ..results[0] })
            &&& forall|i: int| 0 <= i < results.len() ==> (#[trigger] results[i]).iterations
                <= r.iterations
            &&& exists|i: int| 0 <= i < results.len() && (#[trigger] results[i]).iterations
                == r.iterations
        },
{
    lemma_most(results, results.len() as int);
}

proof fn lemma_most(results: Seq<ResultModel>, n: int)
    requires
        0 <= n <= results.len(),
    ensures
        most_iterations(results, n) >= 0,
        forall|i: int| 0 <= i < n ==> (#[trigger] results[i]).iterations <= most_iterations(
            results,
            n,
        ),
        n > 0 ==> exists|i: int| 0 <= i < n && (#[trigger] results[i]).iterations
            == most_iterations(results, n),
    decreases n,
{
    if n > 0 {
        lemma_most(results, n - 1);
        if results[n - 1].iterations > most_iterations(results, n - 1) || n == 1 {
            assert(results[n - 1].iterations == most_iterations(results, n));
        } else {
            let i = choose|i: int|
                0 <= i < n - 1 && (#[trigger] results[i]).iterations == most_iterations(
                    results,
                    n - 1,
                );
            assert(results[i].iterations == most_iterations(results, n));
        }
    }
}

/// What is recorded of an ensemble: each member as it was, how many converged, the mean
/// posterior of each variable, and the iterations spent, of which a member that failed counts
/// all that it had.
pub proof fn law_recorded(rule: EnsembleRule, results: Seq<ResultModel>, i: int)
    requires
        0 <= i < results.len(),
        results[i].iterations <= usize::MAX,
    ensures
        ({
            let e = rule.summary(results);
            let n = results.len() as int;
            &&& e.corrections.len() == n
            &&& e.corrections[i] == results[i].decoding
            &&& e.posteriors[i] == results[i].posterior
            &&& e.iterations[i] == results[i].iterations
            &&& e.iteration_dist[i] == results[i].iterations
            &&& e.success[i] == results[i].success
            &&& e.llrs == rule.llrs(results)
            &&& e.cosets == rule.cosets(results)
            &&& e.converged == Set::new(
                |k: int| 0 <= k < results.len() && results[k].success,
            ).len()
            &&& rule.selected(results) matches Some(s) ==> e.selected == s
            &&& e.iteration_total == spent_below(results, n)
        }),
        spent_below(results, i + 1) == spent_below(results, i) + (if results[i].success {
            results[i].iterations
        } else {
            results[i].max_iter
        }),
        spent_below(results, 0) == 0,
{
    lemma_converged(results, results.len() as int);
    assert(results.take(results.len() as int) =~= results);
}

proof fn lemma_converged(results: Seq<ResultModel>, n: int)
    requires
        0 <= n <= results.len(),
    ensures
        Set::new(|k: int| 0 <= k < n && results[k].success).finite(),
        converged_below(results, n) == Set::new(|k: int| 0 <= k < n && results[k].success).len(),
    decreases n,
{
    let s = Set::new(|k: int| 0 <= k < n && results[k].success);
    if n == 0 {
        assert(s =~= Set::empty());
    } else {
        lemma_converged(results, n - 1);
        let t = Set::new(|k: int| 0 <= k < n - 1 && results[k].success);
        assert(!t.contains(n - 1));
        if results[n - 1].success {
            assert(s =~= t.insert(n - 1));
        } else {
            assert(s =~= t);
        }
    }
}

/// The mean posterior of a variable is the sum over all members by their number.
pub proof fn law_mean_posterior(results: Seq<ResultModel>, v: int)
    requires
        results.len() > 0,
        0 <= v < results[0].posterior.len(),
    ensures
        ({
            let n = results.len() as int;
            let q = posterior_sum(results, v, n);
            exists|m: int| #[trigger] rounded(m, q, n) && mean_posterior(results)[v] == m as i64
        }),
        posterior_sum(results, v, 0) == 0,
        forall|k: int|
            0 <= k < results.len() ==> #[trigger] posterior_sum(results, v, k + 1)
                == posterior_sum(results, v, k) + results[k].posterior[v],
{
    law_quotient(posterior_sum(results, v, results.len() as int), results.len() as int);
}

/// The votes and iterations recorded of the class taken and of the one with the most votes of
/// the others count the members that converged to it.
pub proof fn law_classes_recorded(rule: EnsembleRule, results: Seq<ResultModel>)
    requires
        results.len() > 0,
    ensures
        ({
            let e = rule.summary(results);
            let cosets = rule.cosets(results);
            let mask = Seq::new(results.len(), |i: int| results[i].success);
            let n = results.len() as int;
            &&& rule.selected(results) matches Some(s) ==> {
                &&& e.selected_votes == Some(voters(cosets, mask, cosets[s]).len() as int)
                &&& e.selected_iterations == Some(
                    class_iterations_below(results, cosets, mask, cosets[s], n),
                )
                &&& rule.rival(results, s) matches Some(k) ==> {
                    &&& e.runner_votes == Some(voters(cosets, mask, cosets[k]).len() as int)
                    &&& e.runner_iterations == Some(
                        class_iterations_below(results, cosets, mask, cosets[k], n),
                    )
                }
                &&& rule.rival(results, s) is None ==> e.runner_votes is None
                    && e.runner_iterations is None
                &&& e.residual is None
            }
            &&& rule.selected(results) is None ==> {
                &&& e.selected_votes is None
                &&& e.runner_votes is None
                &&& e.residual matches Some(bits) && bits.len() == n && forall|i: int, v: int|
                    0 <= i < n && 0 <= v < results[i].posterior.len() ==> #[trigger] bits[i][v]
                        == (if results[i].posterior[v] < 0 {
                        1 as Bit
                    } else {
                        0 as Bit
                    })
            }
        }),
{
    let cosets = rule.cosets(results);
    let mask = Seq::new(results.len(), |i: int| results[i].success);
    assert(converged(results) =~= mask);
    if let Some(s) = rule.selected(results) {
        law_votes(cosets, mask, cosets[s]);
        if let Some(k) = rule.rival(results, s) {
            law_votes(cosets, mask, cosets[k]);
        }
    }
}

/// Iterations of a class, squares of iterations and squared distances, member by member.
pub proof fn law_member_sums(
    results: Seq<ResultModel>,
    cosets: Seq<Seq<Bit>>,
    mask: Seq<bool>,
    c: Seq<Bit>,
    v: int,
    center: int,
    n: int,
)
    requires
        n >= 0,
    ensures
        class_iterations_below(results, cosets, mask, c, 0) == 0,
        class_iterations_below(results, cosets, mask, c, n + 1) == class_iterations_below(
            results,
            cosets,
            mask,
            c,
            n,
        ) + (if mask[n] && cosets[n] == c {
            results[n].iterations as int
        } else {
            0
        }),
        spent_squares_below(results, 0) == 0,
        ({
            let x: int = if results[n].success {
                results[n].iterations as int
            } else {
                results[n].max_iter as int
            };
            spent_squares_below(results, n + 1) == spent_squares_below(results, n) + x * x
        }),
        distances_below(results, v, center, 0) == 0,
        ({
            let y = results[n].posterior[v] - center;
            distances_below(results, v, center, n + 1) == distances_below(results, v, center, n) + y
                * y
        }),
{
}

} // verus!
