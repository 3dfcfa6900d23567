//! The solutions that a search collects.

use vstd::prelude::*;

use super::adapt::SLGMBPDecoder;
use super::config::{FinalSolutionSelection, SolutionCollectionMode};
use crate::decoder::are_bits;
use crate::matrix::Bit;
use crate::order::{is_order, law_order, order, precedes, sorted_indices, Key};

verus! {

/// A decoding that explains the detectors.
#[derive(Debug)]
pub struct CollectedSolution {
    /// The iterations after which it was found.
    pub discovery_iteration: usize,
    /// Its weight.
    pub llr_cost: i128,
    pub decoding: Vec<Bit>,
    pub posterior: Vec<i64>,
}

/// What a solution holds.
#[verifier::ext_equal]
pub struct SolutionModel {
    pub discovery: nat,
    pub cost: int,
    pub decoding: Seq<Bit>,
    pub posterior: Seq<i64>,
}

impl View for CollectedSolution {
    type V = SolutionModel;

    open spec fn view(&self) -> SolutionModel {
        SolutionModel {
            discovery: self.discovery_iteration as nat,
            cost: self.llr_cost as int,
            decoding: self.decoding@,
            posterior: self.posterior@,
        }
    }
}

impl Clone for CollectedSolution {
    fn clone(&self) -> (r: Self)
        ensures
            r@ == self@,
    {
        CollectedSolution {
            discovery_iteration: self.discovery_iteration,
            llr_cost: self.llr_cost,
            decoding: self.decoding.clone(),
            posterior: self.posterior.clone(),
        }
    }
}

/// What the solutions of a list hold.
pub open spec fn solutions_of(s: Seq<CollectedSolution>) -> Seq<SolutionModel> {
    Seq::new(s.len(), |i: int| s[i]@)
}

/// The sum of the priors of the errors below `n`.
pub open spec fn cost_below(decoding: Seq<Bit>, prior: Seq<i64>, n: int) -> int
    decreases n,
{
    if n <= 0 {
        0
    } else {
        cost_below(decoding, prior, n - 1) + decoding[n - 1] * prior[n - 1]
    }
}

/// The sum of the priors of all errors.
pub open spec fn cost(decoding: Seq<Bit>, prior: Seq<i64>) -> int {
    cost_below(
        decoding,
        prior,
        if decoding.len() <= prior.len() {
            decoding.len() as int
        } else {
            prior.len() as int
        },
    )
}

/// By when solutions were found, then by weight.
pub open spec fn found_keys(s: Seq<SolutionModel>) -> Seq<Key> {
    Seq::new(s.len(), |i: int| (s[i].discovery as i128, s[i].cost as i128))
}

/// By weight, then by when solutions were found.
pub open spec fn cost_keys(s: Seq<SolutionModel>) -> Seq<Key> {
    Seq::new(s.len(), |i: int| (s[i].cost as i128, s[i].discovery as i128))
}

impl SLGMBPDecoder {
    /// Whether the search goes on after the first solution.
    pub open spec fn post_selects(self) -> bool {
        self.config.solution_collection_mode == SolutionCollectionMode::PostSelection
    }

    /// The number of solutions to collect.
    pub open spec fn wanted(self) -> nat {
        if !self.post_selects() || self.config.n_solutions == 0 {
            1
        } else {
            self.config.n_solutions as nat
        }
    }

    /// The solutions that count: the first to be found, as many as are wanted.
    pub open spec fn accepted(self, s: Seq<SolutionModel>) -> Seq<SolutionModel> {
        let r = order(found_keys(s));
        Seq::new(
            if s.len() <= self.wanted() {
                s.len()
            } else {
                self.wanted()
            },
            |k: int| s[r[k] as int],
        )
    }

    /// The solution that is taken of those that count: the first to be found or, if so
    /// configured, the first of least weight.
    pub open spec fn taken(self, s: Seq<SolutionModel>) -> SolutionModel {
        let a = self.accepted(s);
        match self.config.final_solution_selection {
            FinalSolutionSelection::Fastest => a[0],
            FinalSolutionSelection::MinWeight => a[order(cost_keys(a))[0] as int],
        }
    }

    /// The number of solutions to collect under post-selection.
    pub fn target_solution_count(&self) -> (r: usize)
        ensures
            r == (if self.config.n_solutions == 0 {
                1
            } else {
                self.config.n_solutions
            }),
    {
        if self.config.n_solutions == 0 {
            1
        } else {
            self.config.n_solutions
        }
    }

    /// Whether the search goes on after the first solution.
    pub fn use_post_selection(&self) -> (r: bool)
        ensures
            r == self.post_selects(),
    {
        self.config.solution_collection_mode == SolutionCollectionMode::PostSelection
    }

    /// Whether `count` solutions end the search.
    pub fn should_stop_after_success_count(&self, count: usize) -> (r: bool)
        ensures
            r == (count >= self.wanted()),
    {
        if self.use_post_selection() {
            count >= self.target_solution_count()
        } else {
            count >= 1
        }
    }

    /// Whether a solution found in one iteration ends a layer.
    pub fn should_early_break_on_single_iter_success(&self) -> (r: bool)
        ensures
            r == !self.post_selects(),
    {
        !self.use_post_selection()
    }

    /// The weight of an estimate.
    pub fn estimated_error_weight(&self, decoding: &Vec<Bit>, prior_llr: &Vec<i64>) -> (r: i128)
        requires
            are_bits(decoding@),
        ensures
            r == cost(decoding@, prior_llr@),
    {
        let n: usize = if decoding.len() <= prior_llr.len() {
            decoding.len()
        } else {
            prior_llr.len()
        };
        let mut total: i128 = 0;
        let mut i: usize = 0;
        while i < n
            invariant
                are_bits(decoding@),
                i <= n <= decoding.len(),
                n <= prior_llr.len(),
                total == cost_below(decoding@, prior_llr@, i as int),
                -(i * 0x8000_0000_0000_0000) <= total <= i * 0x8000_0000_0000_0000,
            decreases n - i,
        {
            let bit: Bit = decoding[i];
            let prior: i64 = prior_llr[i];
            proof {
                assert(bit * prior == (if bit == 0 {
                    0
                } else {
                    prior as int
                })) by (nonlinear_arith)
                    requires
                        0 <= bit <= 1,
                ;
                assert((i + 1) * 0x8000_0000_0000_0000 == i * 0x8000_0000_0000_0000
                    + 0x8000_0000_0000_0000) by (nonlinear_arith);
                assert((i + 1) * 0x8000_0000_0000_0000 <= 0xffff_ffff_ffff_ffff
                    * 0x8000_0000_0000_0000) by (nonlinear_arith)
                    requires
                        i + 1 <= 0xffff_ffff_ffff_ffff,
                ;
            }
            total = total + (bit as i128) * (prior as i128);
            i += 1;
        }
        total
    }

    /// Adds a solution to a list.
    pub fn collect_solution(
        &self,
        out: &mut Vec<CollectedSolution>,
        discovery_iteration: usize,
        decoding: &Vec<Bit>,
        posterior: &Vec<i64>,
        prior_llr: &Vec<i64>,
    )
        requires
            are_bits(decoding@),
        ensures
            solutions_of(final(out)@) == solutions_of(old(out)@).push(
                (SolutionModel {
                    discovery: discovery_iteration as nat,
                    cost: cost(decoding@, prior_llr@),
                    decoding: decoding@,
                    posterior: posterior@,
                }),
            ),
            final(out).len() == old(out).len() + 1,
    {
        let ghost before = out@;
        let llr_cost: i128 = self.estimated_error_weight(decoding, prior_llr);
        out.push(
            CollectedSolution {
                discovery_iteration,
                llr_cost,
                decoding: decoding.clone(),
                posterior: posterior.clone(),
            },
        );
        assert(solutions_of(out@) =~= solutions_of(before).push(out@.last()@));
    }

    /// The solutions that count.
    pub fn accepted_solutions(&self, collected: &Vec<CollectedSolution>) -> (r: Vec<
        CollectedSolution,
    >)
        ensures
            solutions_of(r@) == self.accepted(solutions_of(collected@)),
            forall|k: int|
                0 <= k < r.len() ==> exists|i: int|
                    0 <= i < collected.len() && (#[trigger] r[k])@ == (#[trigger] collected[i])@,
            collected.len() > 0 ==> r.len() > 0,
            r.len() <= collected.len(),
    {
        let ghost s = solutions_of(collected@);
        let mut keys: Vec<Key> = Vec::new();
        let mut i: usize = 0;
        while i < collected.len()
            invariant
                s == solutions_of(collected@),
                i <= collected.len(),
                keys.len() == i,
                forall|k: int| 0 <= k < i ==> keys[k] == found_keys(s)[k],
            decreases collected.len() - i,
        {
            assert(s[i as int] == collected[i as int]@);
            let key: Key = (collected[i].discovery_iteration as i128, collected[i].llr_cost);
            keys.push(key);
            i += 1;
        }
        assert(keys@ =~= found_keys(s));
        let ranks: Vec<usize> = sorted_indices(&keys);
        let wanted: usize = if self.use_post_selection() {
            self.target_solution_count()
        } else {
            1
        };
        let n: usize = if collected.len() <= wanted {
            collected.len()
        } else {
            wanted
        };
        let mut out: Vec<CollectedSolution> = Vec::new();
        let mut k: usize = 0;
        while k < n
            invariant
                s == solutions_of(collected@),
                ranks@ == order(found_keys(s)),
                is_order(ranks@, found_keys(s), s.len()),
                n <= collected.len(),
                n == self.accepted(s).len(),
                k <= n,
                out.len() == k,
                forall|j: int|
                    0 <= j < k ==> (#[trigger] out[j])@ == self.accepted(s)[j] && exists|i: int|
                        0 <= i < collected.len() && out[j]@ == (#[trigger] collected[i])@,
            decreases n - k,
        {
            let idx: usize = ranks[k];
            assert(s[idx as int] == collected[idx as int]@);
            out.push(collected[idx].clone());
            k += 1;
        }
        assert(solutions_of(out@) =~= self.accepted(s));
        out
    }

    /// The solution that is taken; none if there is none.
    pub fn choose_final_solution(&self, collected: &Vec<CollectedSolution>) -> (r: Option<
        CollectedSolution,
    >)
        ensures
            r is None <==> collected.len() == 0,
            r matches Some(x) ==> x@ == self.taken(solutions_of(collected@)) && exists|i: int|
                0 <= i < collected.len() && x@ == (#[trigger] collected[i])@,
    {
        if collected.len() == 0 {
            return None;
        }
        let accepted: Vec<CollectedSolution> = self.accepted_solutions(collected);
        let ghost a = solutions_of(accepted@);
        match self.config.final_solution_selection {
            FinalSolutionSelection::Fastest => {
                assert(a[0] == accepted[0]@);
                Some(accepted[0].clone())
            },
            FinalSolutionSelection::MinWeight => {
                let mut keys: Vec<Key> = Vec::new();
                let mut i: usize = 0;
                while i < accepted.len()
                    invariant
                        a == solutions_of(accepted@),
                        i <= accepted.len(),
                        keys.len() == i,
                        forall|k: int| 0 <= k < i ==> keys[k] == cost_keys(a)[k],
                    decreases accepted.len() - i,
                {
                    assert(a[i as int] == accepted[i as int]@);
                    let key: Key = (accepted[i].llr_cost, accepted[i].discovery_iteration as i128);
                    keys.push(key);
                    i += 1;
                }
                assert(keys@ =~= cost_keys(a));
                let ranks: Vec<usize> = sorted_indices(&keys);
                let idx: usize = ranks[0];
                assert(a[idx as int] == accepted[idx as int]@);
                Some(accepted[idx].clone())
            },
        }
    }
}

/// A list of solutions that a search can hold.
pub open spec fn countable(s: Seq<SolutionModel>) -> bool {
    &&& s.len() <= usize::MAX
    &&& forall|i: int|
        0 <= i < s.len() ==> (#[trigger] s[i]).discovery <= usize::MAX && i128::MIN <= s[i].cost
            <= i128::MAX
}

/// The solutions that count were found no later than any other and come in the order in
/// which they were found, the lighter first among those found at once.
pub proof fn law_accepted_first_found(d: SLGMBPDecoder, s: Seq<SolutionModel>)
    requires
        countable(s),
    ensures
        forall|k: int, l: int|
            0 <= k < l < d.accepted(s).len() ==> {
                let a = #[trigger] d.accepted(s)[k];
                let b = #[trigger] d.accepted(s)[l];
                a.discovery < b.discovery || (a.discovery == b.discovery && a.cost <= b.cost)
            },
        forall|k: int, l: int|
            0 <= k < d.accepted(s).len() <= l < s.len() ==> (#[trigger] d.accepted(
                s,
            )[k]).discovery <= s[(#[trigger] order(found_keys(s))[l]) as int].discovery,
{
    let keys = found_keys(s);
    let r = order(keys);
    law_order(keys, s.len());
    assert forall|k: int, l: int| 0 <= k < l < s.len() implies precedes(
        keys,
        #[trigger] r[k],
        #[trigger] r[l],
    ) && r[k] < s.len() && r[l] < s.len() by {}
    assert forall|k: int, l: int| 0 <= k < l < d.accepted(s).len() implies {
        let a = #[trigger] d.accepted(s)[k];
        let b = #[trigger] d.accepted(s)[l];
        a.discovery < b.discovery || (a.discovery == b.discovery && a.cost <= b.cost)
    } by {
        assert(precedes(keys, r[k], r[l]));
        let i = r[k] as int;
        let j = r[l] as int;
        assert(s[i].discovery <= usize::MAX);
        assert(s[j].discovery <= usize::MAX);
    }
    assert forall|k: int, l: int| 0 <= k < d.accepted(s).len() <= l < s.len() implies (
    #[trigger] d.accepted(s)[k]).discovery <= s[(#[trigger] order(
        found_keys(s),
    )[l]) as int].discovery by {
        assert(precedes(keys, r[k], r[l]));
        let i = r[k] as int;
        let j = r[l] as int;
        assert(s[i].discovery <= usize::MAX);
        assert(s[j].discovery <= usize::MAX);
    }
}

/// Under selection by weight the solution taken weighs no more than any other that counts.
pub proof fn law_taken_lightest(d: SLGMBPDecoder, s: Seq<SolutionModel>)
    requires
        countable(s),
        s.len() > 0,
        d.config.final_solution_selection == FinalSolutionSelection::MinWeight,
    ensures
        forall|k: int|
            0 <= k < d.accepted(s).len() ==> d.taken(s).cost <= (#[trigger] d.accepted(
                s,
            )[k]).cost,
{
    let a = d.accepted(s);
    law_order(found_keys(s), s.len());
    let keys = cost_keys(a);
    law_order(keys, a.len());
    let q = order(keys);
    let f = order(found_keys(s));
    assert forall|k: int|
        0 <= k < a.len() implies i128::MIN <= (#[trigger] a[k]).cost <= i128::MAX by {
        let i = f[k] as int;
        assert(s[i].discovery <= usize::MAX);
    }
    assert forall|k: int| 0 <= k < a.len() implies d.taken(s).cost <= (#[trigger] d.accepted(
        s,
    )[k]).cost by {
        lemma_order_reaches(q, keys, a.len(), k);
        let j = choose|j: int| 0 <= j < q.len() && q[j] == k as usize;
        assert(a[q[0] as int].cost <= i128::MAX);
        assert(a[k].cost <= i128::MAX);
        if j > 0 {
            assert(precedes(keys, q[0], q[j]));
        }
    }
}

/// An ordering reaches every place.
proof fn lemma_order_reaches(q: Seq<usize>, keys: Seq<Key>, n: nat, k: int)
    requires
        is_order(q, keys, n),
        q.no_duplicates(),
        0 <= k < n,
        n <= usize::MAX,
    ensures
        exists|j: int| 0 <= j < q.len() && q[j] == k as usize,
{
    let image = q.to_set();
    let range = vstd::set_lib::set_int_range(0, n as int);
    q.unique_seq_to_set();
    vstd::set_lib::lemma_int_range(0, n as int);
    let lifted = image.map(|x: usize| x as int);
    assert(lifted.subset_of(range)) by {
        assert forall|y: int| lifted.contains(y) implies range.contains(y) by {
            let x = choose|x: usize| image.contains(x) && x as int == y;
            let j = choose|j: int| 0 <= j < q.len() && q[j] == x;
            assert(q[j] < n);
        }
    }
    vstd::set_lib::lemma_map_size(image, lifted, |x: usize| x as int);
    vstd::set_lib::lemma_subset_equality(lifted, range);
    assert(range.contains(k));
    assert(lifted.contains(k));
    let x = choose|x: usize| image.contains(x) && x as int == k;
    assert(q.contains(x));
}

} // verus!
