//! Ensembles: several decoders decode the same syndrome, and one of their estimates is taken.

use vstd::prelude::*;

use crate::arith::{
    add_squared_distance, bound, capped, lemma_squared_distance, squared_distance, trunc_div,
};
use crate::decoder::{
    are_bits, bits_of_negatives, consistent, negative_bits, same_bits, BPExtraResult, DecodeResult,
    Decoder, ResultModel,
};
use crate::matrix::{Bit, MatrixModel, SparseBitMatrix};

verus! {

/// Whether some members of an ensemble repel variables of high confidence.
#[derive(Clone, Copy, Debug, PartialEq, Eq, Structural)]
pub enum EnsembleMode {
    Normal,
    Repulsive,
}

impl Default for EnsembleMode {
    fn default() -> (r: Self)
        ensures
            r == EnsembleMode::Normal,
    {
        EnsembleMode::Normal
    }
}

/// How repulsive members are set up.
#[derive(Clone, Copy, Debug)]
pub struct RepulsiveConfig {
    /// The number of repulsive members.
    pub repulsive_size: usize,
    /// The least and the greatest repulsive memory strength.
    pub repulsive_gamma_dist: (i64, i64),
    /// The magnitude that a posterior of high confidence exceeds.
    pub abs_llr_threshold: i64,
    /// The distance between repulsive legs.
    pub pulse_per_leg: usize,
    /// The number of ordinary legs before the first repulsive one.
    pub start_leg: usize,
}

impl RepulsiveConfig {
    /// The parameters that repulsion starts from, where the unit is `one`.
    pub fn with_unit(one: i64) -> (r: Self)
        requires
            1 <= one <= i64::MAX / 2,
        ensures
            r.repulsive_size == 0,
            r.repulsive_gamma_dist == ((-(one / 2)) as i64, (-(one / 10)) as i64),
            r.abs_llr_threshold == 2 * one,
            r.pulse_per_leg == 1,
            r.start_leg == 0,
    {
        RepulsiveConfig {
            repulsive_size: 0,
            repulsive_gamma_dist: (-(one / 2), -(one / 10)),
            abs_llr_threshold: 2 * one,
            pulse_per_leg: 1,
            start_leg: 0,
        }
    }
}

/// Which estimate is taken.
#[derive(Clone, Copy, Debug, PartialEq, Eq, Structural)]
pub enum SelectionStrategy {
    /// The lightest.
    MostLikely,
    /// The lightest of the logical class that most members voted for.
    MajorityVote,
}

impl Default for SelectionStrategy {
    fn default() -> (r: Self)
        ensures
            r == SelectionStrategy::MostLikely,
    {
        SelectionStrategy::MostLikely
    }
}

/// What is recorded of an ensemble.
#[derive(Clone, Debug)]
pub struct EnsembleExtraResult {
    /// The estimate of each member.
    pub all_corrections: Vec<Vec<Bit>>,
    /// The weight of each estimate.
    pub llr_sums: Vec<i128>,
    /// The logical class of each estimate.
    pub cosets: Vec<Vec<Bit>>,
    /// The member whose estimate was taken.
    pub selected_index: usize,
    pub child_iterations: Vec<usize>,
    pub child_success: Vec<bool>,
    /// The most iterations of a member; absent, and so without bound, if one failed.
    pub effective_iterations: Option<usize>,
    /// The iterations of the members that voted for the class taken.
    pub selected_coset_iterations: Option<u128>,
    /// The iterations of the members that voted for the class with the second most votes.
    pub runner_up_coset_iterations: Option<u128>,
    pub selected_coset_votes: Option<usize>,
    pub runner_up_coset_votes: Option<usize>,
    /// The number of members that converged.
    pub converged_count: usize,
    /// The posteriors of each member.
    pub ensemble_posterior_ratios: Vec<Vec<i64>>,
    /// The mean posterior of each variable; absent if there are no variables.
    pub ensemble_mean_posterior_ratios: Option<Vec<i64>>,
    /// The sum of the squared distances of the posteriors of each variable from their mean;
    /// absent if there are no variables.
    pub ensemble_posterior_squares: Option<Vec<u128>>,
    /// The iterations of each member.
    pub ensemble_iteration_dist: Vec<usize>,
    /// The iterations of all members. A member that failed counts with all that it had.
    pub ensemble_iteration_total: u128,
    /// The sum of the squares of those iterations.
    pub ensemble_iteration_squares: u128,
    /// The signs of the posteriors of each member, if all failed.
    pub residual_result: Option<Vec<Vec<Bit>>>,
}

/// What a record of an ensemble holds.
#[verifier::ext_equal]
pub struct EnsembleModel {
    pub corrections: Seq<Seq<Bit>>,
    pub llrs: Seq<i128>,
    pub cosets: Seq<Seq<Bit>>,
    pub selected: int,
    pub iterations: Seq<usize>,
    pub success: Seq<bool>,
    pub effective: Option<usize>,
    pub selected_iterations: Option<int>,
    pub runner_iterations: Option<int>,
    pub selected_votes: Option<int>,
    pub runner_votes: Option<int>,
    pub converged: int,
    pub posteriors: Seq<Seq<i64>>,
    pub mean: Option<Seq<i64>>,
    pub squares: Option<Seq<u128>>,
    pub iteration_dist: Seq<usize>,
    pub iteration_total: int,
    pub iteration_squares: int,
    pub residual: Option<Seq<Seq<Bit>>>,
}

/// What the rows of a table of bits hold.
pub open spec fn bit_rows(s: Seq<Vec<Bit>>) -> Seq<Seq<Bit>> {
    Seq::new(s.len(), |i: int| s[i]@)
}

/// What the rows of a table of ratios hold.
pub open spec fn ratio_rows(s: Seq<Vec<i64>>) -> Seq<Seq<i64>> {
    Seq::new(s.len(), |i: int| s[i]@)
}

impl View for EnsembleExtraResult {
    type V = EnsembleModel;

    open spec fn view(&self) -> EnsembleModel {
        EnsembleModel {
            corrections: bit_rows(self.all_corrections@),
            llrs: self.llr_sums@,
            cosets: bit_rows(self.cosets@),
            selected: self.selected_index as int,
            iterations: self.child_iterations@,
            success: self.child_success@,
            effective: self.effective_iterations,
            selected_iterations: match self.selected_coset_iterations {
                Some(x) => Some(x as int),
                None => None,
            },
            runner_iterations: match self.runner_up_coset_iterations {
                Some(x) => Some(x as int),
                None => None,
            },
            selected_votes: match self.selected_coset_votes {
                Some(x) => Some(x as int),
                None => None,
            },
            runner_votes: match self.runner_up_coset_votes {
                Some(x) => Some(x as int),
                None => None,
            },
            converged: self.converged_count as int,
            posteriors: ratio_rows(self.ensemble_posterior_ratios@),
            mean: match self.ensemble_mean_posterior_ratios {
                Some(m) => Some(m@),
                None => None,
            },
            squares: match self.ensemble_posterior_squares {
                Some(q) => Some(q@),
                None => None,
            },
            iteration_dist: self.ensemble_iteration_dist@,
            iteration_total: self.ensemble_iteration_total as int,
            iteration_squares: self.ensemble_iteration_squares as int,
            residual: match self.residual_result {
                Some(r) => Some(bit_rows(r@)),
                None => None,
            },
        }
    }
}

/// The sum of the ratios of the errors below `n`.
pub open spec fn llr_below(decoding: Seq<Bit>, priors: Seq<i64>, n: int) -> int
    decreases n,
{
    if n <= 0 {
        0
    } else {
        llr_below(decoding, priors, n - 1) + if decoding[n - 1] == 1 {
            priors[n - 1] as int
        } else {
            0
        }
    }
}

/// The weight of an estimate: the sum of the ratios of its errors.
pub open spec fn llr_sum(decoding: Seq<Bit>, priors: Seq<i64>) -> int {
    llr_below(
        decoding,
        priors,
        if decoding.len() <= priors.len() {
            decoding.len() as int
        } else {
            priors.len() as int
        },
    )
}

/// The first place below `n` that is marked and has the least value of those.
pub open spec fn first_least(values: Seq<i128>, mask: Seq<bool>, n: int) -> Option<int>
    decreases n,
{
    if n <= 0 {
        None
    } else {
        let b = first_least(values, mask, n - 1);
        if !mask[n - 1] {
            b
        } else {
            match b {
                None => Some(n - 1),
                Some(k) => if values[n - 1] < values[k] {
                    Some(n - 1)
                } else {
                    b
                },
            }
        }
    }
}

/// The number of marked places below `n` of class `c`.
pub open spec fn votes_below(cosets: Seq<Seq<Bit>>, mask: Seq<bool>, c: Seq<Bit>, n: int) -> int
    decreases n,
{
    if n <= 0 {
        0
    } else {
        votes_below(cosets, mask, c, n - 1) + if mask[n - 1] && cosets[n - 1] == c {
            1int
        } else {
            0
        }
    }
}

/// The number of marked places of class `c`.
pub open spec fn votes(cosets: Seq<Seq<Bit>>, mask: Seq<bool>, c: Seq<Bit>) -> int {
    votes_below(cosets, mask, c, mask.len() as int)
}

/// The first marked place below `n` whose class has the most votes of those.
pub open spec fn leader_below(cosets: Seq<Seq<Bit>>, mask: Seq<bool>, n: int) -> Option<int>
    decreases n,
{
    if n <= 0 {
        None
    } else {
        let b = leader_below(cosets, mask, n - 1);
        if !mask[n - 1] {
            b
        } else {
            match b {
                None => Some(n - 1),
                Some(k) => if votes(cosets, mask, cosets[n - 1]) > votes(cosets, mask, cosets[k]) {
                    Some(n - 1)
                } else {
                    b
                },
            }
        }
    }
}

/// The marked places of class `c`, or those of another class.
pub open spec fn of_class(
    cosets: Seq<Seq<Bit>>,
    mask: Seq<bool>,
    c: Seq<Bit>,
    same: bool,
) -> Seq<bool> {
    Seq::new(mask.len(), |i: int| mask[i] && (cosets[i] == c) == same)
}

/// The iterations of the marked members below `n` of class `c`.
pub open spec fn class_iterations_below(
    results: Seq<ResultModel>,
    cosets: Seq<Seq<Bit>>,
    mask: Seq<bool>,
    c: Seq<Bit>,
    n: int,
) -> int
    decreases n,
{
    if n <= 0 {
        0
    } else {
        class_iterations_below(results, cosets, mask, c, n - 1) + if mask[n - 1] && cosets[n - 1]
            == c {
            results[n - 1].iterations as int
        } else {
            0
        }
    }
}

/// The members that converged.
pub open spec fn converged(results: Seq<ResultModel>) -> Seq<bool> {
    Seq::new(results.len(), |i: int| results[i].success)
}

/// The most iterations of the first `n` members.
pub open spec fn most_iterations(results: Seq<ResultModel>, n: int) -> int
    decreases n,
{
    if n <= 0 {
        0
    } else if results[n - 1].iterations > most_iterations(results, n - 1) {
        results[n - 1].iterations as int
    } else {
        most_iterations(results, n - 1)
    }
}

/// The number of the first `n` members that converged.
pub open spec fn converged_below(results: Seq<ResultModel>, n: int) -> int
    decreases n,
{
    if n <= 0 {
        0
    } else {
        converged_below(results, n - 1) + if results[n - 1].success {
            1int
        } else {
            0
        }
    }
}

/// The iterations of a member: all that it had if it failed.
pub open spec fn spent(result: ResultModel) -> nat {
    if result.success {
        result.iterations
    } else {
        result.max_iter
    }
}

/// The iterations of the first `n` members, with all that it had for a member that failed.
pub open spec fn spent_below(results: Seq<ResultModel>, n: int) -> int
    decreases n,
{
    if n <= 0 {
        0
    } else {
        spent_below(results, n - 1) + spent(results[n - 1])
    }
}

/// The sum of the squares of those iterations.
pub open spec fn spent_squares_below(results: Seq<ResultModel>, n: int) -> int
    decreases n,
{
    if n <= 0 {
        0
    } else {
        spent_squares_below(results, n - 1) + squared_distance(spent(results[n - 1]) as int, 0)
    }
}

/// The sum of the posteriors of variable `v` over the first `n` members.
pub open spec fn posterior_sum(results: Seq<ResultModel>, v: int, n: int) -> int
    decreases n,
{
    if n <= 0 {
        0
    } else {
        posterior_sum(results, v, n - 1) + results[n - 1].posterior[v]
    }
}

/// The mean posterior of each variable.
pub open spec fn mean_posterior(results: Seq<ResultModel>) -> Seq<i64> {
    let n = results.len() as int;
    Seq::new(
        results[0].posterior.len(),
        |v: int| trunc_div(posterior_sum(results, v, n), n) as i64,
    )
}

/// The sum of the squared distances of the posteriors of variable `v` from `center` over the
/// first `n` members.
pub open spec fn distances_below(results: Seq<ResultModel>, v: int, center: int, n: int) -> int
    decreases n,
{
    if n <= 0 {
        0
    } else {
        distances_below(results, v, center, n - 1) + squared_distance(
            results[n - 1].posterior[v] as int,
            center,
        )
    }
}

/// The sum of the squared distances of the posteriors of each variable from their mean.
pub open spec fn posterior_squares(results: Seq<ResultModel>) -> Seq<u128> {
    Seq::new(
        results[0].posterior.len(),
        |v: int|
            capped(
                distances_below(
                    results,
                    v,
                    mean_posterior(results)[v] as int,
                    results.len() as int,
                ),
            ) as u128,
    )
}

/// How the estimates of an ensemble are compared.
#[verifier::ext_equal]
pub struct EnsembleRule {
    pub strategy: SelectionStrategy,
    pub priors: Option<Seq<i64>>,
    pub observables: Option<MatrixModel>,
    pub max_index: Option<usize>,
}

impl EnsembleRule {
    /// The weight of each estimate; zero where priors are absent.
    pub open spec fn llrs(self, results: Seq<ResultModel>) -> Seq<i128> {
        Seq::new(
            results.len(),
            |i: int|
                match self.priors {
                    Some(p) => llr_sum(results[i].decoding, p) as i128,
                    None => 0,
                },
        )
    }

    /// The logical class of each estimate; empty where observables are absent.
    pub open spec fn cosets(self, results: Seq<ResultModel>) -> Seq<Seq<Bit>> {
        Seq::new(
            results.len(),
            |i: int|
                match self.observables {
                    Some(m) => m.mul_mod2(results[i].decoding),
                    None => Seq::empty(),
                },
        )
    }

    /// Whether member `i` may be taken.
    pub open spec fn in_range(self, i: int) -> bool {
        match self.max_index {
            Some(m) => i <= m,
            None => true,
        }
    }

    /// The members that may be taken: those in range that converged or, if none of them did,
    /// all that converged.
    pub open spec fn selectable(self, results: Seq<ResultModel>) -> Seq<bool> {
        if exists|i: int| 0 <= i < results.len() && self.in_range(i) && (#[trigger] results[i]).success {
            Seq::new(results.len(), |i: int| results[i].success && self.in_range(i))
        } else {
            converged(results)
        }
    }

    /// The member whose estimate is taken, if one converged.
    pub open spec fn selected(self, results: Seq<ResultModel>) -> Option<int> {
        let mask = self.selectable(results);
        let n = results.len() as int;
        match self.strategy {
            SelectionStrategy::MostLikely => first_least(self.llrs(results), mask, n),
            SelectionStrategy::MajorityVote => {
                let cosets = self.cosets(results);
                match leader_below(cosets, mask, n) {
                    None => None,
                    Some(w) => first_least(
                        self.llrs(results),
                        of_class(cosets, mask, cosets[w], true),
                        n,
                    ),
                }
            },
        }
    }

    /// The members that converged to another class than that of `s`.
    pub open spec fn others(self, results: Seq<ResultModel>, s: int) -> Seq<bool> {
        let cosets = self.cosets(results);
        of_class(cosets, converged(results), cosets[s], false)
    }

    /// A member of the class with the most votes of those other than the class of `s`.
    pub open spec fn rival(self, results: Seq<ResultModel>, s: int) -> Option<int> {
        leader_below(self.cosets(results), self.others(results, s), results.len() as int)
    }

    /// The estimate that the one taken, `s`, is compared with: the lightest of another class,
    /// or the lightest of the class with the second most votes.
    pub open spec fn runner_up(self, results: Seq<ResultModel>, s: int) -> Option<int> {
        let n = results.len() as int;
        let llrs = self.llrs(results);
        let cosets = self.cosets(results);
        match self.strategy {
            SelectionStrategy::MostLikely => first_least(llrs, self.others(results, s), n),
            SelectionStrategy::MajorityVote => match self.rival(results, s) {
                None => None,
                Some(w) => first_least(
                    llrs,
                    of_class(cosets, converged(results), cosets[w], true),
                    n,
                ),
            },
        }
    }

    /// By how much the second class weighs more, where `s` was taken.
    pub open spec fn gap(self, results: Seq<ResultModel>, s: int) -> int {
        let llrs = self.llrs(results);
        match self.runner_up(results, s) {
            Some(r) => bound(llrs[r] - llrs[s], i128::MAX as int),
            None => i128::MAX as int,
        }
    }

    /// The result of an ensemble: the estimate taken, with its gap, or, if no member
    /// converged, that of the first with the most iterations of any and without a gap.
    pub open spec fn combined(self, results: Seq<ResultModel>) -> ResultModel {
        match self.selected(results) {
            Some(s) => ResultModel { gap: Some(self.gap(results, s) as i128), ..results[s] },
            None => ResultModel {
                iterations: most_iterations(results, results.len() as int) as nat,
                gap: None,
                ..results[0]
            },
        }
    }

    /// What is recorded of an ensemble.
    pub open spec fn summary(self, results: Seq<ResultModel>) -> EnsembleModel {
        let n = results.len() as int;
        let mask = converged(results);
        let cosets = self.cosets(results);
        let base = EnsembleModel {
            corrections: Seq::new(results.len(), |i: int| results[i].decoding),
            llrs: self.llrs(results),
            cosets,
            selected: 0,
            iterations: Seq::new(results.len(), |i: int| results[i].iterations as usize),
            success: mask,
            effective: if converged_below(results, n) < n {
                None
            } else {
                Some(most_iterations(results, n) as usize)
            },
            selected_iterations: None,
            runner_iterations: None,
            selected_votes: None,
            runner_votes: None,
            converged: converged_below(results, n),
            posteriors: Seq::new(results.len(), |i: int| results[i].posterior),
            mean: if results[0].posterior.len() > 0 {
                Some(mean_posterior(results))
            } else {
                None
            },
            squares: if results[0].posterior.len() > 0 {
                Some(posterior_squares(results))
            } else {
                None
            },
            iteration_dist: Seq::new(results.len(), |i: int| results[i].iterations as usize),
            iteration_total: spent_below(results, n),
            iteration_squares: capped(spent_squares_below(results, n)),
            residual: None,
        };
        match self.selected(results) {
            None => EnsembleModel {
                residual: Some(
                    Seq::new(results.len(), |i: int| negative_bits(results[i].posterior)),
                ),
                ..base
            },
            Some(s) => {
                let r = self.rival(results, s);
                EnsembleModel {
                    selected: s,
                    selected_iterations: Some(
                        class_iterations_below(results, cosets, mask, cosets[s], n),
                    ),
                    selected_votes: Some(votes(cosets, mask, cosets[s])),
                    runner_iterations: match r {
                        Some(k) => Some(
                            class_iterations_below(results, cosets, mask, cosets[k], n),
                        ),
                        None => None,
                    },
                    runner_votes: match r {
                        Some(k) => Some(votes(cosets, mask, cosets[k])),
                        None => None,
                    },
                    ..base
                }
            },
        }
    }

    /// Results that can be compared.
    pub open spec fn comparable(self, results: Seq<ResultModel>) -> bool {
        &&& results.len() > 0
        &&& self.observables matches Some(m) ==> m.wf() && forall|i: int|
            0 <= i < results.len() ==> (#[trigger] results[i]).decoding.len() == m.cols
        &&& forall|i: int|
            0 <= i < results.len() ==> (#[trigger] results[i]).posterior.len()
                == results[0].posterior.len()
    }
}

pub proof fn lemma_first_least(values: Seq<i128>, mask: Seq<bool>, n: int)
    requires
        0 <= n <= mask.len(),
        n <= values.len(),
    ensures
        first_least(values, mask, n) matches Some(k) ==> {
            &&& 0 <= k < n
            &&& mask[k]
            &&& forall|i: int| 0 <= i < n && #[trigger] mask[i] ==> values[k] <= values[i]
        },
        first_least(values, mask, n) is None ==> forall|i: int| 0 <= i < n ==> !#[trigger] mask[i],
    decreases n,
{
    if n > 0 {
        lemma_first_least(values, mask, n - 1);
    }
}

proof fn lemma_leader(cosets: Seq<Seq<Bit>>, mask: Seq<bool>, n: int)
    requires
        0 <= n <= mask.len(),
    ensures
        leader_below(cosets, mask, n) matches Some(k) ==> {
            &&& 0 <= k < n
            &&& mask[k]
            &&& forall|i: int|
                0 <= i < n && #[trigger] mask[i] ==> votes(cosets, mask, cosets[k]) >= votes(
                    cosets,
                    mask,
                    cosets[i],
                )
        },
        leader_below(cosets, mask, n) is None ==> forall|i: int|
            0 <= i < n ==> !#[trigger] mask[i],
    decreases n,
{
    if n > 0 {
        lemma_leader(cosets, mask, n - 1);
    }
}

proof fn lemma_selectable(rule: EnsembleRule, results: Seq<ResultModel>)
    ensures
        rule.selectable(results).len() == results.len(),
        forall|i: int|
            0 <= i < results.len() && #[trigger] rule.selectable(results)[i] ==> results[i].success,
        (exists|i: int| 0 <= i < results.len() && (#[trigger] results[i]).success) ==> exists|i: int|
            0 <= i < results.len() && #[trigger] rule.selectable(results)[i],
{
    let mask = rule.selectable(results);
    if exists|i: int| 0 <= i < results.len() && rule.in_range(i) && (#[trigger] results[i]).success {
        let i = choose|i: int|
            0 <= i < results.len() && rule.in_range(i) && (#[trigger] results[i]).success;
        assert(mask[i]);
    } else if exists|i: int| 0 <= i < results.len() && (#[trigger] results[i]).success {
        let i = choose|i: int| 0 <= i < results.len() && (#[trigger] results[i]).success;
        assert(mask[i]);
    }
}

/// An ensemble takes an estimate exactly if a member converged, and only of a member that
/// did.
pub proof fn law_ensemble_takes_converged(rule: EnsembleRule, results: Seq<ResultModel>)
    ensures
        rule.selected(results) is Some <==> exists|i: int|
            0 <= i < results.len() && (#[trigger] results[i]).success,
        rule.selected(results) matches Some(s) ==> 0 <= s < results.len() && results[s].success
            && rule.selectable(results)[s],
{
    let mask = rule.selectable(results);
    let n = results.len() as int;
    let llrs = rule.llrs(results);
    let cosets = rule.cosets(results);
    lemma_selectable(rule, results);
    lemma_first_least(llrs, mask, n);
    lemma_leader(cosets, mask, n);
    match rule.strategy {
        SelectionStrategy::MostLikely => {},
        SelectionStrategy::MajorityVote => {
            if let Some(w) = leader_below(cosets, mask, n) {
                let same = of_class(cosets, mask, cosets[w], true);
                lemma_first_least(llrs, same, n);
                assert(same[w]);
            }
        },
    }
    if rule.selected(results) is None {
        assert forall|i: int| 0 <= i < results.len() implies !(#[trigger] results[i]).success by {
            if results[i].success {
                let j = choose|j: int|
                    0 <= j < results.len() && #[trigger] rule.selectable(results)[j];
                assert(mask[j]);
            }
        }
    }
}

/// Provisional estimates are given exactly if no member converged, one for each member; and
/// an effective number of iterations exactly if every member converged.
pub proof fn law_ensemble_summary(rule: EnsembleRule, results: Seq<ResultModel>)
    ensures
        ({
            let e = rule.summary(results);
            &&& e.residual is Some <==> forall|i: int|
                0 <= i < results.len() ==> !(#[trigger] results[i]).success
            &&& e.residual matches Some(bits) ==> bits.len() == results.len()
            &&& e.effective is Some <==> forall|i: int|
                0 <= i < results.len() ==> (#[trigger] results[i]).success
            &&& 0 <= e.converged <= results.len()
        }),
{
    law_ensemble_takes_converged(rule, results);
    lemma_converged_below(results, results.len() as int);
}

proof fn lemma_converged_below(results: Seq<ResultModel>, n: int)
    requires
        0 <= n <= results.len(),
    ensures
        0 <= converged_below(results, n) <= n,
        converged_below(results, n) == n <==> forall|i: int|
            0 <= i < n ==> (#[trigger] results[i]).success,
    decreases n,
{
    if n > 0 {
        lemma_converged_below(results, n - 1);
        if forall|i: int| 0 <= i < n ==> (#[trigger] results[i]).success {
            assert(results[n - 1].success);
        }
    }
}

/// Where the results of all members are consistent, so is that of the ensemble.
pub proof fn law_ensemble_consistent(
    rule: EnsembleRule,
    results: Seq<ResultModel>,
    code: MatrixModel,
    det: Seq<Bit>,
)
    requires
        results.len() > 0,
        forall|i: int| 0 <= i < results.len() ==> consistent(code, det, #[trigger] results[i]),
    ensures
        consistent(code, det, rule.combined(results)),
{
    law_ensemble_takes_converged(rule, results);
    assert(consistent(code, det, results[0]));
}

/// By weight, the estimate taken weighs no more than any that may be taken.
pub proof fn law_most_likely_is_lightest(rule: EnsembleRule, results: Seq<ResultModel>, i: int)
    requires
        rule.strategy == SelectionStrategy::MostLikely,
        0 <= i < results.len(),
        rule.selectable(results)[i],
    ensures
        rule.selected(results) matches Some(s) && rule.llrs(results)[s] <= rule.llrs(results)[i],
{
    lemma_selectable(rule, results);
    lemma_first_least(rule.llrs(results), rule.selectable(results), results.len() as int);
    assert(rule.selectable(results)[i]);
}

/// By weight, where every member may be taken, the second class does not weigh less than the
/// one taken.
pub proof fn law_gap_not_negative(rule: EnsembleRule, results: Seq<ResultModel>)
    requires
        rule.strategy == SelectionStrategy::MostLikely,
        rule.max_index is None,
    ensures
        rule.selected(results) matches Some(s) ==> rule.gap(results, s) >= 0,
{
    let n = results.len() as int;
    if let Some(s) = rule.selected(results) {
        law_ensemble_takes_converged(rule, results);
        let mask = converged(results);
        let others = of_class(rule.cosets(results), mask, rule.cosets(results)[s], false);
        lemma_first_least(rule.llrs(results), others, n);
        if let Some(r) = rule.runner_up(results, s) {
            assert(others[r]);
            assert(rule.in_range(r));
            assert(results[r].success);
            assert(rule.selectable(results)[r]);
            law_most_likely_is_lightest(rule, results, r);
        }
    }
}

/// By votes, no class of an estimate that may be taken has more votes among those than the
/// class of the one taken, and the one taken is the lightest of its class.
pub proof fn law_majority_wins(rule: EnsembleRule, results: Seq<ResultModel>, i: int)
    requires
        rule.strategy == SelectionStrategy::MajorityVote,
        0 <= i < results.len(),
        rule.selectable(results)[i],
    ensures
        ({
            let mask = rule.selectable(results);
            let cosets = rule.cosets(results);
            rule.selected(results) matches Some(s) && votes(cosets, mask, cosets[s]) >= votes(
                cosets,
                mask,
                cosets[i],
            ) && (cosets[i] == cosets[s] ==> rule.llrs(results)[s] <= rule.llrs(results)[i])
        }),
{
    let mask = rule.selectable(results);
    let n = results.len() as int;
    let llrs = rule.llrs(results);
    let cosets = rule.cosets(results);
    lemma_selectable(rule, results);
    lemma_leader(cosets, mask, n);
    assert(mask[i]);
    let w = leader_below(cosets, mask, n)->0;
    let same = of_class(cosets, mask, cosets[w], true);
    lemma_first_least(llrs, same, n);
    assert(same[w]);
    let s = rule.selected(results)->0;
    assert(same[s]);
    if cosets[i] == cosets[s] {
        assert(same[i]);
    }
}

/// An ensemble of decoders.
#[derive(Clone, Debug)]
pub struct EnsembleDecoder<D: Decoder> {
    pub decoders: Vec<D>,
    pub strategy: SelectionStrategy,
    /// The ratios by which estimates are weighed.
    pub original_log_priors: Option<Vec<i64>>,
    /// The matrix that tells the logical class of an estimate.
    pub observable_matrix: Option<SparseBitMatrix>,
    /// The last member that may be taken; any may if absent.
    pub selection_max_index: Option<usize>,
    pub mode: EnsembleMode,
    pub repulsive_config: Option<RepulsiveConfig>,
}

/// What the members of an ensemble hold, how they are compared and how they differ.
#[verifier::ext_equal]
pub struct EnsembleState<M> {
    pub children: Seq<M>,
    pub rule: EnsembleRule,
    pub mode: EnsembleMode,
    pub repulsive: Option<RepulsiveConfig>,
}

impl<D: Decoder> EnsembleDecoder<D> {
    /// How the estimates are compared.
    pub open spec fn rule(self) -> EnsembleRule {
        EnsembleRule {
            strategy: self.strategy,
            priors: match self.original_log_priors {
                Some(p) => Some(p@),
                None => None,
            },
            observables: match self.observable_matrix {
                Some(m) => Some(m@),
                None => None,
            },
            max_index: self.selection_max_index,
        }
    }

    /// An ensemble without repulsive members.
    pub fn new(
        decoders: Vec<D>,
        strategy: SelectionStrategy,
        original_log_priors: Option<Vec<i64>>,
        observable_matrix: Option<SparseBitMatrix>,
        selection_max_index: Option<usize>,
    ) -> (r: Self)
        requires
            decoders.len() > 0,
            strategy == SelectionStrategy::MostLikely ==> original_log_priors is Some,
            strategy == SelectionStrategy::MajorityVote ==> observable_matrix is Some,
        ensures
            r.decoders == decoders,
            r.strategy == strategy,
            r.original_log_priors == original_log_priors,
            r.observable_matrix == observable_matrix,
            r.selection_max_index == selection_max_index,
            r.mode == EnsembleMode::Normal,
            r.repulsive_config is None,
    {
        EnsembleDecoder {
            decoders,
            strategy,
            original_log_priors,
            observable_matrix,
            selection_max_index,
            mode: EnsembleMode::Normal,
            repulsive_config: None,
        }
    }

    /// An ensemble, some members of which may be repulsive.
    pub fn new_with_mode(
        decoders: Vec<D>,
        strategy: SelectionStrategy,
        original_log_priors: Option<Vec<i64>>,
        observable_matrix: Option<SparseBitMatrix>,
        selection_max_index: Option<usize>,
        mode: EnsembleMode,
        repulsive_config: Option<RepulsiveConfig>,
    ) -> (r: Self)
        requires
            decoders.len() > 0,
            strategy == SelectionStrategy::MostLikely ==> original_log_priors is Some,
            strategy == SelectionStrategy::MajorityVote ==> observable_matrix is Some,
            mode == EnsembleMode::Repulsive ==> repulsive_config is Some,
            repulsive_config matches Some(c) ==> c.repulsive_size <= decoders.len(),
        ensures
            r.decoders == decoders,
            r.strategy == strategy,
            r.original_log_priors == original_log_priors,
            r.observable_matrix == observable_matrix,
            r.selection_max_index == selection_max_index,
            r.mode == mode,
            r.repulsive_config == repulsive_config,
    {
        EnsembleDecoder {
            decoders,
            strategy,
            original_log_priors,
            observable_matrix,
            selection_max_index,
            mode,
            repulsive_config,
        }
    }
}

/// What the results of a list hold.
pub open spec fn results_of(s: Seq<DecodeResult>) -> Seq<ResultModel> {
    Seq::new(s.len(), |i: int| s[i]@)
}

/// The weight of an estimate.
fn weigh(decoding: &Vec<Bit>, priors: &Vec<i64>) -> (r: i128)
    ensures
        r == llr_sum(decoding@, priors@),
{
    let n: usize = if decoding.len() <= priors.len() {
        decoding.len()
    } else {
        priors.len()
    };
    let mut total: i128 = 0;
    let mut i: usize = 0;
    while i < n
        invariant
            i <= n <= decoding.len(),
            n <= priors.len(),
            total == llr_below(decoding@, priors@, i as int),
            -(i * 0x8000_0000_0000_0000) <= total <= i * 0x8000_0000_0000_0000,
        decreases n - i,
    {
        proof {
            assert((i + 1) * 0x8000_0000_0000_0000 == i * 0x8000_0000_0000_0000
                + 0x8000_0000_0000_0000) by (nonlinear_arith);
            assert((i + 1) * 0x8000_0000_0000_0000 <= 0xffff_ffff_ffff_ffff
                * 0x8000_0000_0000_0000) by (nonlinear_arith)
                requires
                    i + 1 <= 0xffff_ffff_ffff_ffff,
            ;
        }
        if decoding[i] == 1 {
            total = total + (priors[i] as i128);
        }
        i += 1;
    }
    total
}

/// The first marked place of least value.
pub fn find_least(values: &Vec<i128>, mask: &Vec<bool>) -> (r: Option<usize>)
    requires
        values.len() == mask.len(),
    ensures
        (match r {
            Some(k) => Some(k as int),
            None => None,
        }) == first_least(values@, mask@, mask@.len() as int),
        r matches Some(k) ==> k < mask.len() && mask[k as int],
{
    let mut best: Option<usize> = None;
    let mut i: usize = 0;
    while i < mask.len()
        invariant
            values.len() == mask.len(),
            i <= mask.len(),
            (match best {
                Some(k) => Some(k as int),
                None => None,
            }) == first_least(values@, mask@, i as int),
            best matches Some(k) ==> k < i && mask[k as int],
        decreases mask.len() - i,
    {
        if mask[i] {
            let less: bool = match best {
                Some(k) => values[i] < values[k],
                None => true,
            };
            if less {
                best = Some(i);
            }
        }
        i += 1;
    }
    best
}

/// The number of marked places of class `c`.
fn count_votes(cosets: &Vec<Vec<Bit>>, mask: &Vec<bool>, c: &Vec<Bit>) -> (r: usize)
    requires
        cosets.len() == mask.len(),
    ensures
        r == votes(bit_rows(cosets@), mask@, c@),
{
    let ghost rows = bit_rows(cosets@);
    let mut count: usize = 0;
    let mut i: usize = 0;
    while i < mask.len()
        invariant
            rows == bit_rows(cosets@),
            cosets.len() == mask.len(),
            i <= mask.len(),
            count <= i,
            count == votes_below(rows, mask@, c@, i as int),
        decreases mask.len() - i,
    {
        let hit: bool = mask[i] && same_bits(&cosets[i], c);
        assert(rows[i as int] == cosets[i as int]@);
        if hit {
            count = count + 1;
        }
        i += 1;
    }
    count
}

/// The first marked place whose class has the most votes.
fn find_leader(cosets: &Vec<Vec<Bit>>, mask: &Vec<bool>) -> (r: Option<usize>)
    requires
        cosets.len() == mask.len(),
    ensures
        (match r {
            Some(k) => Some(k as int),
            None => None,
        }) == leader_below(bit_rows(cosets@), mask@, mask@.len() as int),
        r matches Some(k) ==> k < mask.len() && mask[k as int],
{
    let ghost rows = bit_rows(cosets@);
    let mut best: Option<usize> = None;
    let mut best_votes: usize = 0;
    let mut i: usize = 0;
    while i < mask.len()
        invariant
            rows == bit_rows(cosets@),
            cosets.len() == mask.len(),
            i <= mask.len(),
            (match best {
                Some(k) => Some(k as int),
                None => None,
            }) == leader_below(rows, mask@, i as int),
            best matches Some(k) ==> k < i && mask[k as int] && best_votes == votes(
                rows,
                mask@,
                rows[k as int],
            ),
        decreases mask.len() - i,
    {
        if mask[i] {
            let n: usize = count_votes(cosets, mask, &cosets[i]);
            assert(rows[i as int] == cosets[i as int]@);
            let more: bool = match best {
                Some(_) => n > best_votes,
                None => true,
            };
            if more {
                best = Some(i);
                best_votes = n;
            }
        }
        i += 1;
    }
    best
}

/// The marked places of class `c`, or those of another class.
pub fn mark_class(cosets: &Vec<Vec<Bit>>, mask: &Vec<bool>, c: &Vec<Bit>, same: bool) -> (r: Vec<bool>)
    requires
        cosets.len() == mask.len(),
    ensures
        r@ == of_class(bit_rows(cosets@), mask@, c@, same),
        r.len() == mask.len(),
{
    let ghost rows = bit_rows(cosets@);
    let mut out: Vec<bool> = Vec::new();
    let mut i: usize = 0;
    while i < mask.len()
        invariant
            rows == bit_rows(cosets@),
            cosets.len() == mask.len(),
            i <= mask.len(),
            out.len() == i,
            forall|k: int| 0 <= k < i ==> out[k] == of_class(rows, mask@, c@, same)[k],
        decreases mask.len() - i,
    {
        let alike: bool = same_bits(&cosets[i], c);
        assert(rows[i as int] == cosets[i as int]@);
        out.push(mask[i] && alike == same);
        i += 1;
    }
    assert(out@ =~= of_class(rows, mask@, c@, same));
    out
}

/// The iterations of the marked members of class `c`.
fn sum_class_iterations(
    results: &Vec<DecodeResult>,
    cosets: &Vec<Vec<Bit>>,
    mask: &Vec<bool>,
    c: &Vec<Bit>,
) -> (r: u128)
    requires
        cosets.len() == mask.len(),
        results.len() == mask.len(),
    ensures
        r == class_iterations_below(
            results_of(results@),
            bit_rows(cosets@),
            mask@,
            c@,
            mask@.len() as int,
        ),
{
    let ghost rows = bit_rows(cosets@);
    let ghost models = results_of(results@);
    let mut total: u128 = 0;
    let mut i: usize = 0;
    while i < mask.len()
        invariant
            rows == bit_rows(cosets@),
            models == results_of(results@),
            cosets.len() == mask.len(),
            results.len() == mask.len(),
            i <= mask.len(),
            total <= i * 0xffff_ffff_ffff_ffff,
            total == class_iterations_below(models, rows, mask@, c@, i as int),
        decreases mask.len() - i,
    {
        proof {
            assert((i + 1) * 0xffff_ffff_ffff_ffff == i * 0xffff_ffff_ffff_ffff
                + 0xffff_ffff_ffff_ffff) by (nonlinear_arith);
            assert((i + 1) * 0xffff_ffff_ffff_ffff <= 0xffff_ffff_ffff_ffff
                * 0xffff_ffff_ffff_ffff) by (nonlinear_arith)
                requires
                    i + 1 <= 0xffff_ffff_ffff_ffff,
            ;
        }
        let hit: bool = mask[i] && same_bits(&cosets[i], c);
        assert(rows[i as int] == cosets[i as int]@);
        assert(models[i as int] == results[i as int]@);
        if hit {
            total = total + (results[i].iterations as u128);
        }
        i += 1;
    }
    total
}

/// By how much `a` exceeds `b`.
pub fn difference(a: i128, b: i128) -> (r: i128)
    ensures
        r == bound(a - b, i128::MAX as int),
{
    if b >= 0 {
        if a < b - i128::MAX {
            -i128::MAX
        } else {
            a - b
        }
    } else if a > i128::MAX + b {
        i128::MAX
    } else {
        a - b
    }
}

/// What is counted of the members of an ensemble.
struct Tally {
    iterations: Vec<usize>,
    success: Vec<bool>,
    most: usize,
    converged: usize,
    spent: u128,
    squares: u128,
}

fn tally(results: &Vec<DecodeResult>) -> (r: Tally)
    ensures
        ({
            let models = results_of(results@);
            let n = models.len() as int;
            &&& r.iterations@ == Seq::new(models.len(), |i: int| models[i].iterations as usize)
            &&& r.success@ == converged(models)
            &&& r.most == most_iterations(models, n)
            &&& r.converged == converged_below(models, n)
            &&& r.spent == spent_below(models, n)
            &&& r.squares == capped(spent_squares_below(models, n))
        }),
{
    let ghost models = results_of(results@);
    let mut iterations: Vec<usize> = Vec::new();
    let mut success: Vec<bool> = Vec::new();
    let mut most: usize = 0;
    let mut count: usize = 0;
    let mut total: u128 = 0;
    let mut squares: u128 = 0;
    let mut i: usize = 0;
    while i < results.len()
        invariant
            models == results_of(results@),
            i <= results.len(),
            iterations.len() == i,
            success.len() == i,
            forall|k: int| 0 <= k < i ==> iterations[k] == models[k].iterations,
            forall|k: int| 0 <= k < i ==> success[k] == models[k].success,
            most == most_iterations(models, i as int),
            count <= i,
            count == converged_below(models, i as int),
            total <= i * 0xffff_ffff_ffff_ffff,
            total == spent_below(models, i as int),
            squares == capped(spent_squares_below(models, i as int)),
        decreases results.len() - i,
    {
        proof {
            assert((i + 1) * 0xffff_ffff_ffff_ffff == i * 0xffff_ffff_ffff_ffff
                + 0xffff_ffff_ffff_ffff) by (nonlinear_arith);
            assert((i + 1) * 0xffff_ffff_ffff_ffff <= 0xffff_ffff_ffff_ffff
                * 0xffff_ffff_ffff_ffff) by (nonlinear_arith)
                requires
                    i + 1 <= 0xffff_ffff_ffff_ffff,
            ;
            assert(models[i as int] == results[i as int]@);
        }
        iterations.push(results[i].iterations);
        success.push(results[i].success);
        if results[i].iterations > most {
            most = results[i].iterations;
        }
        let own: usize = if results[i].success {
            count = count + 1;
            results[i].iterations
        } else {
            results[i].max_iter
        };
        proof {
            lemma_squared_distance(own as int, 0);
        }
        total = total + (own as u128);
        squares = add_squared_distance(squares, own as i128, 0);
        i += 1;
    }
    proof {
        assert(iterations@ =~= Seq::new(models.len(), |i: int| models[i].iterations as usize));
        assert(success@ =~= converged(models));
    }
    Tally { iterations, success, most, converged: count, spent: total, squares }
}

/// The mean posterior of each variable.
fn mean_of_posteriors(results: &Vec<DecodeResult>) -> (r: Vec<i64>)
    requires
        results.len() > 0,
        forall|i: int|
            0 <= i < results.len() ==> (#[trigger] results[i]).posterior_ratios.len()
                == results[0].posterior_ratios.len(),
    ensures
        r@ == mean_posterior(results_of(results@)),
{
    let ghost models = results_of(results@);
    let n: usize = results.len();
    let cols: usize = results[0].posterior_ratios.len();
    let mut out: Vec<i64> = Vec::new();
    let mut v: usize = 0;
    while v < cols
        invariant
            models == results_of(results@),
            n == results.len(),
            n > 0,
            forall|i: int|
                0 <= i < results.len() ==> (#[trigger] results[i]).posterior_ratios.len() == cols,
            cols == models[0].posterior.len(),
            v <= cols,
            out.len() == v,
            forall|u: int| 0 <= u < v ==> out[u] == mean_posterior(models)[u],
        decreases cols - v,
    {
        let mut total: i128 = 0;
        let mut i: usize = 0;
        while i < n
            invariant
                models == results_of(results@),
                n == results.len(),
                forall|k: int|
                    0 <= k < results.len() ==> (#[trigger] results[k]).posterior_ratios.len()
                        == cols,
                v < cols,
                i <= n,
                total == posterior_sum(models, v as int, i as int),
                -(i * 0x8000_0000_0000_0000) <= total <= i * 0x7fff_ffff_ffff_ffff,
            decreases n - i,
        {
            proof {
                assert((i + 1) * 0x8000_0000_0000_0000 == i * 0x8000_0000_0000_0000
                    + 0x8000_0000_0000_0000) by (nonlinear_arith);
                assert((i + 1) * 0x7fff_ffff_ffff_ffff == i * 0x7fff_ffff_ffff_ffff
                    + 0x7fff_ffff_ffff_ffff) by (nonlinear_arith);
                assert((i + 1) * 0x8000_0000_0000_0000 <= 0xffff_ffff_ffff_ffff
                    * 0x8000_0000_0000_0000) by (nonlinear_arith)
                    requires
                        i + 1 <= 0xffff_ffff_ffff_ffff,
                ;
                assert((i + 1) * 0x7fff_ffff_ffff_ffff <= 0xffff_ffff_ffff_ffff
                    * 0x7fff_ffff_ffff_ffff) by (nonlinear_arith)
                    requires
                        i + 1 <= 0xffff_ffff_ffff_ffff,
                ;
                assert(models[i as int] == results[i as int]@);
            }
            total = total + (results[i].posterior_ratios[v] as i128);
            i += 1;
        }
        let wide: i128 = n as i128;
        let mean: i128 = if total >= 0 {
            total / wide
        } else {
            -((-total) / wide)
        };
        proof {
            if total >= 0 {
                assert(0 <= total / wide <= 0x7fff_ffff_ffff_ffff) by (nonlinear_arith)
                    requires
                        0 <= total <= wide * 0x7fff_ffff_ffff_ffff,
                        wide > 0,
                ;
            } else {
                let m = -total;
                assert(0 <= m / (wide as int) <= 0x8000_0000_0000_0000) by (nonlinear_arith)
                    requires
                        0 <= m <= wide * 0x8000_0000_0000_0000,
                        wide > 0,
                ;
            }
        }
        out.push(mean as i64);
        v += 1;
    }
    assert(out@ =~= mean_posterior(models));
    out
}

/// The sum of the squared distances of the posteriors of each variable from their mean.
fn squares_of_posteriors(results: &Vec<DecodeResult>, mean: &Vec<i64>) -> (r: Vec<u128>)
    requires
        results.len() > 0,
        forall|i: int|
            0 <= i < results.len() ==> (#[trigger] results[i]).posterior_ratios.len()
                == results[0].posterior_ratios.len(),
        mean@ == mean_posterior(results_of(results@)),
    ensures
        r@ == posterior_squares(results_of(results@)),
{
    let ghost models = results_of(results@);
    let mut out: Vec<u128> = Vec::new();
    let mut v: usize = 0;
    while v < mean.len()
        invariant
            models == results_of(results@),
            results.len() > 0,
            mean@ == mean_posterior(models),
            forall|i: int|
                0 <= i < results.len() ==> (#[trigger] results[i]).posterior_ratios.len()
                    == mean.len(),
            v <= mean.len(),
            out.len() == v,
            forall|u: int| 0 <= u < v ==> out[u] == posterior_squares(models)[u],
        decreases mean.len() - v,
    {
        let mut total: u128 = 0;
        let mut i: usize = 0;
        while i < results.len()
            invariant
                models == results_of(results@),
                forall|k: int|
                    0 <= k < results.len() ==> (#[trigger] results[k]).posterior_ratios.len()
                        == mean.len(),
                v < mean.len(),
                i <= results.len(),
                total == capped(distances_below(models, v as int, mean[v as int] as int, i as int)),
            decreases results.len() - i,
        {
            proof {
                assert(models[i as int] == results[i as int]@);
                lemma_squared_distance(
                    models[i as int].posterior[v as int] as int,
                    mean[v as int] as int,
                );
            }
            total = add_squared_distance(
                total,
                results[i].posterior_ratios[v] as i128,
                mean[v] as i128,
            );
            i += 1;
        }
        out.push(total);
        v += 1;
    }
    assert(models[0] == results[0]@);
    assert(out@ =~= posterior_squares(models));
    out
}

/// The record that belongs to a combined result.
pub open spec fn told(rule: EnsembleRule, results: Seq<ResultModel>, r: DecodeResult) -> bool {
    r.extra matches BPExtraResult::Ensemble(e) && e@ == rule.summary(results)
}

impl<D: Decoder> EnsembleDecoder<D> {
    /// The members that may be taken.
    fn find_selectable(&self, success: &Vec<bool>, Ghost(models): Ghost<Seq<ResultModel>>) -> (r: Vec<
        bool,
    >)
        requires
            success@ == converged(models),
        ensures
            r@ == self.rule().selectable(models),
            r.len() == success.len(),
    {
        let ghost rule = self.rule();
        let n: usize = success.len();
        let mut inside: Vec<bool> = Vec::new();
        let mut any: bool = false;
        let mut i: usize = 0;
        while i < n
            invariant
                rule == self.rule(),
                success@ == converged(models),
                n == success.len(),
                i <= n,
                inside.len() == i,
                forall|k: int|
                    0 <= k < i ==> (#[trigger] inside[k]) == (models[k].success && rule.in_range(k)),
                any == exists|k: int|
                    0 <= k < i && rule.in_range(k) && (#[trigger] models[k]).success,
            decreases n - i,
        {
            let here: bool = match self.selection_max_index {
                Some(m) => i <= m,
                None => true,
            };
            assert(success@[i as int] == models[i as int].success);
            if success[i] && here {
                assert(models[i as int].success && rule.in_range(i as int));
                any = true;
            }
            let both: bool = success[i] && here;
            assert(both == (models[i as int].success && rule.in_range(i as int)));
            inside.push(both);
            i += 1;
        }
        assert(models.len() == n);
        if any {
            let ghost w = choose|k: int|
                0 <= k < i && rule.in_range(k) && (#[trigger] models[k]).success;
            assert(models[w].success);
            assert(inside@ =~= rule.selectable(models));
            inside
        } else {
            let out: Vec<bool> = success.clone();
            assert(out@ =~= rule.selectable(models));
            out
        }
    }

    /// Combines the results of the members.
    pub fn combine(&self, results: Vec<DecodeResult>) -> (r: DecodeResult)
        requires
            self.rule().comparable(results_of(results@)),
            (exists|i: int| 0 <= i < results.len() && (#[trigger] results[i]).success) ==> {
                &&& self.original_log_priors is Some
                &&& self.strategy == SelectionStrategy::MajorityVote ==> self.observable_matrix
                    is Some
            },
        ensures
            r@ == self.rule().combined(results_of(results@)),
            told(self.rule(), results_of(results@), r),
    {
        let ghost rule = self.rule();
        let ghost models = results_of(results@);
        let n: usize = results.len();
        proof {
            law_ensemble_takes_converged(rule, models);
            assert forall|i: int| 0 <= i < n implies (#[trigger] results[i]).posterior_ratios.len()
                == results[0].posterior_ratios.len() by {
                assert(models[i].posterior.len() == models[0].posterior.len());
            }
        }
        let t = tally(&results);
        let dist: Vec<usize> = t.iterations.clone();
        let effective: Option<usize> = if t.converged < n {
            None
        } else {
            Some(t.most)
        };
        let mut corrections: Vec<Vec<Bit>> = Vec::new();
        let mut posteriors: Vec<Vec<i64>> = Vec::new();
        let mut llr_sums: Vec<i128> = Vec::new();
        let mut cosets: Vec<Vec<Bit>> = Vec::new();
        let mut residual: Vec<Vec<Bit>> = Vec::new();
        let mut i: usize = 0;
        while i < n
            invariant
                rule == self.rule(),
                models == results_of(results@),
                rule.comparable(models),
                n == results.len(),
                i <= n,
                corrections.len() == i,
                posteriors.len() == i,
                llr_sums.len() == i,
                cosets.len() == i,
                residual.len() == i,
                forall|k: int| 0 <= k < i ==> (#[trigger] corrections[k])@ == models[k].decoding,
                forall|k: int| 0 <= k < i ==> (#[trigger] posteriors[k])@ == models[k].posterior,
                forall|k: int| 0 <= k < i ==> llr_sums[k] == rule.llrs(models)[k],
                forall|k: int| 0 <= k < i ==> (#[trigger] cosets[k])@ == rule.cosets(models)[k],
                forall|k: int|
                    0 <= k < i ==> (#[trigger] residual[k])@ == negative_bits(models[k].posterior),
            decreases n - i,
        {
            assert(models[i as int] == results[i as int]@);
            corrections.push(results[i].decoding.clone());
            posteriors.push(results[i].posterior_ratios.clone());
            let llr: i128 = match &self.original_log_priors {
                Some(p) => weigh(&results[i].decoding, p),
                None => 0,
            };
            llr_sums.push(llr);
            let coset: Vec<Bit> = match &self.observable_matrix {
                Some(m) => m.mul_mod2(&results[i].decoding),
                None => Vec::new(),
            };
            proof {
                if rule.observables is None {
                    assert(coset@ =~= Seq::empty());
                }
            }
            cosets.push(coset);
            residual.push(bits_of_negatives(&results[i].posterior_ratios));
            i += 1;
        }
        let ghost rows = rule.cosets(models);
        proof {
            assert(llr_sums@ =~= rule.llrs(models));
            assert(bit_rows(cosets@) =~= rows);
        }
        let mut mean: Option<Vec<i64>> = None;
        let mut squares: Option<Vec<u128>> = None;
        if results[0].posterior_ratios.len() > 0 {
            let means: Vec<i64> = mean_of_posteriors(&results);
            squares = Some(squares_of_posteriors(&results, &means));
            mean = Some(means);
        }
        assert(models[0] == results[0]@);
        let mask: Vec<bool> = self.find_selectable(&t.success, Ghost(models));
        let selected: Option<usize> = match self.strategy {
            SelectionStrategy::MostLikely => find_least(&llr_sums, &mask),
            SelectionStrategy::MajorityVote => match find_leader(&cosets, &mask) {
                None => None,
                Some(w) => {
                    let same: Vec<bool> = mark_class(&cosets, &mask, &cosets[w], true);
                    assert(rows[w as int] == cosets[w as int]@);
                    find_least(&llr_sums, &same)
                },
            },
        };
        assert((match selected {
            Some(k) => Some(k as int),
            None => None,
        }) == rule.selected(models));
        let mut results = results;
        match selected {
            None => {
                let extra = EnsembleExtraResult {
                    all_corrections: corrections,
                    llr_sums,
                    cosets,
                    selected_index: 0,
                    child_iterations: t.iterations,
                    child_success: t.success,
                    effective_iterations: effective,
                    selected_coset_iterations: None,
                    runner_up_coset_iterations: None,
                    selected_coset_votes: None,
                    runner_up_coset_votes: None,
                    converged_count: t.converged,
                    ensemble_posterior_ratios: posteriors,
                    ensemble_mean_posterior_ratios: mean,
                    ensemble_posterior_squares: squares,
                    ensemble_iteration_dist: dist,
                    ensemble_iteration_total: t.spent,
                    ensemble_iteration_squares: t.squares,
                    residual_result: Some(residual),
                };
                proof {
                    let m = rule.summary(models);
                    assert(extra@.corrections =~= m.corrections);
                    assert(extra@.posteriors =~= m.posteriors);
                    assert(bit_rows(residual@) =~= Seq::new(
                        models.len(),
                        |i: int| negative_bits(models[i].posterior),
                    ));
                    assert(extra@ =~= m);
                }
                let mut r: DecodeResult = results.swap_remove(0);
                r.iterations = t.most;
                r.logical_gap = None;
                r.extra = BPExtraResult::Ensemble(extra);
                assert(r@ =~= rule.combined(models));
                r
            },
            Some(s) => {
                assert(rows[s as int] == cosets[s as int]@);
                let others: Vec<bool> = mark_class(&cosets, &t.success, &cosets[s], false);
                assert(others@ == rule.others(models, s as int));
                let rival: Option<usize> = find_leader(&cosets, &others);
                let runner: Option<usize> = match self.strategy {
                    SelectionStrategy::MostLikely => find_least(&llr_sums, &others),
                    SelectionStrategy::MajorityVote => match rival {
                        None => None,
                        Some(w) => {
                            assert(rows[w as int] == cosets[w as int]@);
                            let same: Vec<bool> = mark_class(
                                &cosets,
                                &t.success,
                                &cosets[w],
                                true,
                            );
                            find_least(&llr_sums, &same)
                        },
                    },
                };
                assert((match runner {
                    Some(k) => Some(k as int),
                    None => None,
                }) == rule.runner_up(models, s as int));
                let selected_iterations: u128 = sum_class_iterations(
                    &results,
                    &cosets,
                    &t.success,
                    &cosets[s],
                );
                let selected_votes: usize = count_votes(&cosets, &t.success, &cosets[s]);
                let mut gap: i128 = i128::MAX;
                let mut runner_iterations: Option<u128> = None;
                let mut runner_votes: Option<usize> = None;
                match runner {
                    Some(k) => {
                        gap = difference(llr_sums[k], llr_sums[s]);
                    },
                    None => {},
                }
                match rival {
                    Some(k) => {
                        assert(rows[k as int] == cosets[k as int]@);
                        runner_iterations = Some(
                            sum_class_iterations(&results, &cosets, &t.success, &cosets[k]),
                        );
                        runner_votes = Some(count_votes(&cosets, &t.success, &cosets[k]));
                    },
                    None => {},
                }
                let extra = EnsembleExtraResult {
                    all_corrections: corrections,
                    llr_sums,
                    cosets,
                    selected_index: s,
                    child_iterations: t.iterations,
                    child_success: t.success,
                    effective_iterations: effective,
                    selected_coset_iterations: Some(selected_iterations),
                    runner_up_coset_iterations: runner_iterations,
                    selected_coset_votes: Some(selected_votes),
                    runner_up_coset_votes: runner_votes,
                    converged_count: t.converged,
                    ensemble_posterior_ratios: posteriors,
                    ensemble_mean_posterior_ratios: mean,
                    ensemble_posterior_squares: squares,
                    ensemble_iteration_dist: dist,
                    ensemble_iteration_total: t.spent,
                    ensemble_iteration_squares: t.squares,
                    residual_result: None,
                };
                proof {
                    let m = rule.summary(models);
                    assert(extra@.corrections =~= m.corrections);
                    assert(extra@.posteriors =~= m.posteriors);
                    assert(extra@ =~= m);
                }
                assert(models[s as int] == results[s as int]@);
                let mut r: DecodeResult = results.swap_remove(s);
                r.logical_gap = Some(gap);
                r.extra = BPExtraResult::Ensemble(extra);
                assert(r@ =~= rule.combined(models));
                r
            },
        }
    }
}

/// What the members of a list hold.
pub open spec fn models_of<D: Decoder>(s: Seq<D>) -> Seq<D::M> {
    Seq::new(s.len(), |i: int| s[i].model())
}

/// The results of all members.
pub open spec fn outcomes<D: Decoder>(children: Seq<D::M>, det: Seq<Bit>) -> Seq<ResultModel> {
    Seq::new(children.len(), |i: int| D::outcome(children[i], det))
}

/// What all members hold after decoding `det`.
pub open spec fn all_next<D: Decoder>(children: Seq<D::M>, det: Seq<Bit>) -> Seq<D::M> {
    Seq::new(children.len(), |i: int| D::next(children[i], det))
}

/// What was drawn for every member suffices for `n` decodings.
pub open spec fn all_last<D: Decoder>(children: Seq<D::M>, n: nat) -> bool {
    forall|i: int| 0 <= i < children.len() ==> D::lasts(#[trigger] children[i], n)
}

/// All members are ready and decode the same code, the estimates of which can be weighed and,
/// where classes are voted for, told apart. Without observables all estimates are of one class.
pub open spec fn ensemble_ready<D: Decoder>(m: EnsembleState<D::M>) -> bool {
    &&& m.children.len() > 0
    &&& forall|i: int|
        0 <= i < m.children.len() ==> D::ready(#[trigger] m.children[i]) && D::code(m.children[i])
            == D::code(m.children[0])
    &&& m.rule.priors is Some
    &&& m.rule.strategy == SelectionStrategy::MajorityVote ==> m.rule.observables is Some
    &&& m.rule.observables matches Some(o) ==> o.wf() && o.cols == D::code(m.children[0]).cols
}

impl<D: Decoder> EnsembleDecoder<D> {
    /// What the members hold, how they are compared and how they differ.
    pub open spec fn state(self) -> EnsembleState<D::M> {
        EnsembleState {
            children: models_of::<D>(self.decoders@),
            rule: self.rule(),
            mode: self.mode,
            repulsive: self.repulsive_config,
        }
    }

    /// Lets every member decode a syndrome and combines their results.
    pub fn decode_ensemble(&mut self, detectors: &Vec<Bit>) -> (r: DecodeResult)
        requires
            ensemble_ready::<D>(old(self).state()),
            all_last::<D>(old(self).state().children, 1),
            detectors.len() == D::code(old(self).state().children[0]).rows,
        ensures
            final(self).state() == (EnsembleState::<D::M> {
                children: all_next::<D>(old(self).state().children, detectors@),
                ..old(self).state()
            }),
            final(self).mode == old(self).mode,
            final(self).repulsive_config == old(self).repulsive_config,
            ensemble_ready::<D>(final(self).state()),
            D::code(final(self).state().children[0]) == D::code(old(self).state().children[0]),
            D::weights(final(self).state().children[0]) == D::weights(
                old(self).state().children[0],
            ),
            r@ == old(self).rule().combined(
                outcomes::<D>(old(self).state().children, detectors@),
            ),
            told(old(self).rule(), outcomes::<D>(old(self).state().children, detectors@), r),
            r.decoding.len() == D::code(old(self).state().children[0]).cols,
            r.posterior_ratios.len() == D::code(old(self).state().children[0]).cols,
            r.success && are_bits(detectors@) ==> D::code(old(self).state().children[0]).mul_mod2(
                r.decoding@,
            ) == detectors@,
    {
        let ghost start = self.state();
        let ghost code = D::code(start.children[0]);
        let ghost det = detectors@;
        let mut results: Vec<DecodeResult> = Vec::new();
        let mut i: usize = 0;
        while i < self.decoders.len()
            invariant
                ensemble_ready::<D>(start),
                all_last::<D>(start.children, 1),
                self.mode == start.mode,
                self.repulsive_config == start.repulsive,
                code == D::code(start.children[0]),
                det == detectors@,
                detectors.len() == code.rows,
                self.rule() == start.rule,
                self.decoders.len() == start.children.len(),
                i <= self.decoders.len(),
                results.len() == i,
                forall|k: int|
                    0 <= k < i ==> {
                        &&& (#[trigger] self.decoders[k]).model() == D::next(start.children[k], det)
                        &&& D::ready(self.decoders[k].model())
                        &&& D::code(self.decoders[k].model()) == code
                        &&& D::weights(self.decoders[k].model()) == D::weights(start.children[k])
                    },
                forall|k: int|
                    i <= k < self.decoders.len() ==> (#[trigger] self.decoders[k]).model()
                        == start.children[k],
                forall|k: int|
                    0 <= k < i ==> {
                        &&& (#[trigger] results[k])@ == D::outcome(start.children[k], det)
                        &&& results[k].decoding.len() == code.cols
                        &&& results[k].posterior_ratios.len() == code.cols
                        &&& results[k].success && are_bits(det) ==> code.mul_mod2(
                            results[k].decoding@,
                        ) == det
                    },
            decreases self.decoders.len() - i,
        {
            assert(D::ready(start.children[i as int]));
            assert(D::lasts(start.children[i as int], 1));
            assert(self.decoders[i as int].model() == start.children[i as int]);
            let r = self.decoders[i].decode_detailed(detectors);
            results.push(r);
            i += 1;
        }
        let ghost models = results_of(results@);
        proof {
            assert(models =~= outcomes::<D>(start.children, det));
            assert(self.state().children =~= all_next::<D>(start.children, det));
            assert(self.state() =~= (EnsembleState::<D::M> {
                children: all_next::<D>(start.children, det),
                ..start
            }));
            assert forall|k: int|
                0 <= k < models.len() implies (#[trigger] models[k]).decoding.len()
                == code.cols && models[k].posterior.len() == code.cols && (models[k].success
                && are_bits(det) ==> code.mul_mod2(models[k].decoding) == det) by {
                assert(models[k] == results[k]@);
            }
            assert forall|k: int| 0 <= k < self.state().children.len() implies D::ready(
                #[trigger] self.state().children[k],
            ) && D::code(self.state().children[k]) == D::code(self.state().children[0]) by {
                assert(self.decoders[k].model() == self.state().children[k]);
                assert(self.decoders[0].model() == self.state().children[0]);
            }
            assert(self.decoders[0].model() == self.state().children[0]);
            law_ensemble_takes_converged(start.rule, models);
        }
        let r = self.combine(results);
        proof {
            match start.rule.selected(models) {
                Some(s) => {
                    assert(models[s].decoding.len() == code.cols);
                },
                None => {
                    assert(models[0].decoding.len() == code.cols);
                    assert(!models[0].success);
                },
            }
        }
        r
    }
}

impl<D: Decoder> Decoder for EnsembleDecoder<D> {
    type M = EnsembleState<D::M>;

    open spec fn model(&self) -> EnsembleState<D::M> {
        self.state()
    }

    open spec fn ready(m: EnsembleState<D::M>) -> bool {
        ensemble_ready::<D>(m)
    }

    open spec fn code(m: EnsembleState<D::M>) -> MatrixModel {
        D::code(m.children[0])
    }

    open spec fn weights(m: EnsembleState<D::M>) -> Seq<i64> {
        D::weights(m.children[0])
    }

    open spec fn outcome(m: EnsembleState<D::M>, det: Seq<Bit>) -> ResultModel {
        m.rule.combined(outcomes::<D>(m.children, det))
    }

    open spec fn noted(m: EnsembleState<D::M>, det: Seq<Bit>, extra: BPExtraResult) -> bool {
        extra matches BPExtraResult::Ensemble(e) && e@ == m.rule.summary(
            outcomes::<D>(m.children, det),
        )
    }

    open spec fn next(m: EnsembleState<D::M>, det: Seq<Bit>) -> EnsembleState<D::M> {
        EnsembleState { children: all_next::<D>(m.children, det), ..m }
    }

    open spec fn lasts(m: EnsembleState<D::M>, n: nat) -> bool {
        all_last::<D>(m.children, n)
    }

    proof fn lemma_ready(m: EnsembleState<D::M>) {
        D::lemma_ready(m.children[0]);
    }

    proof fn lemma_lasts(m: EnsembleState<D::M>, det: Seq<Bit>, n: nat) {
        let next = Self::next(m, det);
        assert forall|i: int| 0 <= i < m.children.len() implies D::lasts(
            #[trigger] m.children[i],
            1,
        ) && D::lasts(next.children[i], (n - 1) as nat) by {
            D::lemma_lasts(m.children[i], det, n);
        }
    }

    fn can_decode(&self, n: usize) -> (r: bool) {
        let ghost m = self.state();
        let mut i: usize = 0;
        while i < self.decoders.len()
            invariant
                m == self.state(),
                i <= self.decoders.len(),
                forall|k: int| 0 <= k < i ==> D::lasts(#[trigger] m.children[k], n as nat),
            decreases self.decoders.len() - i,
        {
            assert(m.children[i as int] == self.decoders[i as int].model());
            if !self.decoders[i].can_decode(n) {
                return false;
            }
            i += 1;
        }
        true
    }

    fn check_matrix(&self) -> (r: &SparseBitMatrix) {
        assert(D::ready(self.state().children[0]));
        self.decoders[0].check_matrix()
    }

    fn log_prior_ratios(&self) -> (r: Vec<i64>) {
        assert(D::ready(self.state().children[0]));
        self.decoders[0].log_prior_ratios()
    }

    fn decode_detailed(&mut self, detectors: &Vec<Bit>) -> (r: DecodeResult)
        ensures
            told(old(self).rule(), outcomes::<D>(old(self).state().children, detectors@), r),
            final(self).mode == old(self).mode,
            final(self).repulsive_config == old(self).repulsive_config,
    {
        let ghost m = self.state();
        let r = self.decode_ensemble(detectors);
        assert(Self::noted(m, detectors@, r.extra));
        r
    }
}

} // verus!
