//! What a search records.

use vstd::prelude::*;

use super::adapt::SLGMBPDecoder;
use super::evaluate::FITNESS_LIMIT;
use crate::matrix::{Bit, MatrixModel};
use crate::order::{add_member, law_sorted_set, sorted_set};

verus! {

/// The part of a search in which a member was decoded.
#[derive(Clone, Copy, Debug, PartialEq, Eq, Structural)]
pub enum SearchStage {
    Phase1,
    Generation,
}

/// How one member was decoded.
#[derive(Clone, Debug)]
pub struct SLGMBPDynamicsEntry {
    pub stage: SearchStage,
    pub generation_index: usize,
    pub member_index: usize,
    /// The number of checks that were not explained.
    pub residual_syndrome_count: usize,
    /// The number of variables next to them.
    pub residual_adjacent_variable_count: usize,
    pub score: i128,
    /// The variables next to checks that were not explained.
    pub residual_adjacent_variable_indices: Vec<usize>,
    /// The posteriors of these variables.
    pub residual_adjacent_variable_llrs: Vec<i64>,
    pub converged: bool,
    pub iteration_count: usize,
    pub estimated_error_weight: i128,
}

/// What an entry holds.
#[verifier::ext_equal]
pub struct EntryModel {
    pub stage: SearchStage,
    pub generation: nat,
    pub member: nat,
    pub residual: nat,
    pub adjacent_count: nat,
    pub score: int,
    pub adjacent: Seq<usize>,
    pub llrs: Seq<i64>,
    pub converged: bool,
    pub iterations: nat,
    pub weight: int,
}

impl View for SLGMBPDynamicsEntry {
    type V = EntryModel;

    open spec fn view(&self) -> EntryModel {
        EntryModel {
            stage: self.stage,
            generation: self.generation_index as nat,
            member: self.member_index as nat,
            residual: self.residual_syndrome_count as nat,
            adjacent_count: self.residual_adjacent_variable_count as nat,
            score: self.score as int,
            adjacent: self.residual_adjacent_variable_indices@,
            llrs: self.residual_adjacent_variable_llrs@,
            converged: self.converged,
            iterations: self.iteration_count as nat,
            weight: self.estimated_error_weight as int,
        }
    }
}

/// What the entries of a list hold.
pub open spec fn entries_of(s: Seq<SLGMBPDynamicsEntry>) -> Seq<EntryModel> {
    Seq::new(s.len(), |i: int| s[i]@)
}

/// How all members were decoded.
#[derive(Clone, Debug)]
pub struct SLGMBPDetailedDynamicsTrace {
    pub observed_syndrome_weight: usize,
    pub entries: Vec<SLGMBPDynamicsEntry>,
}

/// The best member of one generation.
#[derive(Clone, Debug)]
pub struct SLGMBPScoreSpikeGenerationSnapshot {
    pub generation_index: usize,
    pub posterior_llr_all_variables: Vec<i64>,
    pub memory_strength_all_variables: Vec<i64>,
}

/// The generation in which the best score rose most, and those around it.
#[derive(Clone, Debug)]
pub struct SLGMBPScoreSpikeTrace {
    pub spike_generation_index: usize,
    pub previous_generation_index: usize,
    pub spike_prev_score: i128,
    pub spike_score: i128,
    pub spike_delta_score: i128,
    pub window_start_generation: usize,
    pub window_end_generation: usize,
    pub spike_residual_adjacent_variable_indices: Vec<usize>,
    pub snapshots: Vec<SLGMBPScoreSpikeGenerationSnapshot>,
}

/// What a spike trace holds.
#[verifier::ext_equal]
pub struct SpikeModel {
    pub spike: nat,
    pub previous: nat,
    pub previous_score: int,
    pub score: int,
    pub delta: int,
    pub start: nat,
    pub end: nat,
    pub adjacent: Seq<usize>,
    pub generations: Seq<nat>,
    pub posteriors: Seq<Seq<i64>>,
    pub memories: Seq<Seq<i64>>,
}

impl View for SLGMBPScoreSpikeTrace {
    type V = SpikeModel;

    open spec fn view(&self) -> SpikeModel {
        SpikeModel {
            spike: self.spike_generation_index as nat,
            previous: self.previous_generation_index as nat,
            previous_score: self.spike_prev_score as int,
            score: self.spike_score as int,
            delta: self.spike_delta_score as int,
            start: self.window_start_generation as nat,
            end: self.window_end_generation as nat,
            adjacent: self.spike_residual_adjacent_variable_indices@,
            generations: Seq::new(
                self.snapshots@.len(),
                |k: int| self.snapshots@[k].generation_index as nat,
            ),
            posteriors: Seq::new(
                self.snapshots@.len(),
                |k: int| self.snapshots@[k].posterior_llr_all_variables@,
            ),
            memories: Seq::new(
                self.snapshots@.len(),
                |k: int| self.snapshots@[k].memory_strength_all_variables@,
            ),
        }
    }
}

/// What a search records.
#[derive(Clone, Debug)]
pub struct SLGMBPRuntimeTrace {
    /// Whether the first phase found enough solutions.
    pub phase1_converged: bool,
    pub phase1_iterations: usize,
    pub total_iterations: usize,
    pub generation_count: usize,
    /// The best score of each generation.
    pub generation_best_fitness: Vec<i128>,
    pub selected_solution_posterior: Option<Vec<i64>>,
    pub accepted_solution_decodings: Vec<Vec<Bit>>,
    pub accepted_solution_weights: Vec<i128>,
    pub accepted_solution_discovery_iterations: Vec<usize>,
    /// The number of checks that each member left unexplained.
    pub residual_weight_history: Vec<usize>,
    /// The mean memory strength of the best member of each generation.
    pub gamma_history: Vec<i64>,
    pub detailed_dynamics: Option<SLGMBPDetailedDynamicsTrace>,
    pub score_spike_trace: Option<SLGMBPScoreSpikeTrace>,
}

/// What is recorded of all members.
#[verifier::ext_equal]
pub struct ObservedModel {
    pub weight: nat,
    pub entries: Seq<EntryModel>,
}

/// What a record holds.
#[verifier::ext_equal]
pub struct TraceModel {
    pub phase1_converged: bool,
    pub phase1: nat,
    pub total: nat,
    pub generations: nat,
    pub scores: Seq<i128>,
    pub selected: Option<Seq<i64>>,
    pub decodings: Seq<Seq<Bit>>,
    pub weights: Seq<i128>,
    pub discoveries: Seq<usize>,
    pub residuals: Seq<usize>,
    pub gammas: Seq<i64>,
    pub observed: Option<ObservedModel>,
    pub spike: Option<SpikeModel>,
}

impl View for SLGMBPRuntimeTrace {
    type V = TraceModel;

    open spec fn view(&self) -> TraceModel {
        TraceModel {
            phase1_converged: self.phase1_converged,
            phase1: self.phase1_iterations as nat,
            total: self.total_iterations as nat,
            generations: self.generation_count as nat,
            scores: self.generation_best_fitness@,
            selected: match self.selected_solution_posterior {
                Some(p) => Some(p@),
                None => None,
            },
            decodings: bit_rows_of(self.accepted_solution_decodings@),
            weights: self.accepted_solution_weights@,
            discoveries: self.accepted_solution_discovery_iterations@,
            residuals: self.residual_weight_history@,
            gammas: self.gamma_history@,
            observed: match self.detailed_dynamics {
                Some(d) => Some(
                    ObservedModel {
                        weight: d.observed_syndrome_weight as nat,
                        entries: entries_of(d.entries@),
                    },
                ),
                None => None,
            },
            spike: match self.score_spike_trace {
                Some(t) => Some(t@),
                None => None,
            },
        }
    }
}

/// What the rows of a table of bits hold.
pub open spec fn bit_rows_of(s: Seq<Vec<Bit>>) -> Seq<Seq<Bit>> {
    Seq::new(s.len(), |i: int| s[i]@)
}

/// What the rows of a table hold.
pub open spec fn rows_of(s: Seq<Vec<i64>>) -> Seq<Seq<i64>> {
    Seq::new(s.len(), |i: int| s[i]@)
}

/// What the rows of a table of indices hold.
pub open spec fn index_rows_of(s: Seq<Vec<usize>>) -> Seq<Seq<usize>> {
    Seq::new(s.len(), |i: int| s[i]@)
}

/// How much the best score rose in generation `g`.
pub open spec fn rise(scores: Seq<i128>, g: int) -> int {
    scores[g] - scores[g - 1]
}

/// Whether generation `g` and the one before it have scores.
pub open spec fn scored(scores: Seq<i128>, g: int) -> bool {
    scores[g] != i128::MIN && scores[g - 1] != i128::MIN
}

/// The first generation below `n` in which the best score rose most.
pub open spec fn steepest_below(scores: Seq<i128>, n: int) -> Option<int>
    decreases n,
{
    if n <= 1 {
        None
    } else {
        let b = steepest_below(scores, n - 1);
        if !scored(scores, n - 1) {
            b
        } else {
            match b {
                None => Some(n - 1),
                Some(h) => if rise(scores, n - 1) > rise(scores, h) {
                    Some(n - 1)
                } else {
                    b
                },
            }
        }
    }
}

/// The first generation of the window around generation `g`.
pub open spec fn window_start(g: int) -> int {
    if g <= 3 {
        0
    } else {
        g - 3
    }
}

/// The last generation of the window around generation `g`, of `n`.
pub open spec fn window_end(g: int, n: int) -> int {
    if g + 3 < n {
        g + 3
    } else {
        n - 1
    }
}

/// The trace of the steepest rise: nothing unless the best score rose, the tables have one
/// row for each generation and the rows in the window agree in length.
pub open spec fn spike_trace(
    scores: Seq<i128>,
    posteriors: Seq<Seq<i64>>,
    adjacent: Seq<Seq<usize>>,
    memories: Seq<Seq<i64>>,
    gammas: nat,
) -> Option<SpikeModel> {
    let n = scores.len();
    if n < 2 || posteriors.len() != n || adjacent.len() != n || memories.len() != n || gammas != n {
        None
    } else {
        match steepest_below(scores, n as int) {
            None => None,
            Some(g) => {
                let start = window_start(g);
                let end = window_end(g, n as int);
                if rise(scores, g) <= 0 || !(forall|k: int|
                    start <= k <= end ==> (#[trigger] posteriors[k]).len() == memories[k].len()) {
                    None
                } else {
                    Some(
                        SpikeModel {
                            spike: g as nat,
                            previous: (g - 1) as nat,
                            previous_score: scores[g - 1] as int,
                            score: scores[g] as int,
                            delta: rise(scores, g),
                            start: start as nat,
                            end: end as nat,
                            adjacent: adjacent[g],
                            generations: Seq::new(
                                (end + 1 - start) as nat,
                                |k: int| (start + k) as nat,
                            ),
                            posteriors: posteriors.subrange(start, end + 1),
                            memories: memories.subrange(start, end + 1),
                        },
                    )
                }
            },
        }
    }
}

/// A score that is absent or small enough to be compared.
pub open spec fn is_score(x: i128) -> bool {
    x == i128::MIN || -FITNESS_LIMIT < x < FITNESS_LIMIT
}

/// The rise that is reported is the steepest.
pub proof fn law_spike_is_steepest(scores: Seq<i128>, n: int, g: int)
    requires
        0 <= n <= scores.len(),
        1 <= g < n,
        scored(scores, g),
    ensures
        steepest_below(scores, n) is Some,
        rise(scores, steepest_below(scores, n)->0) >= rise(scores, g),
    decreases n,
{
    if g < n - 1 {
        law_spike_is_steepest(scores, n - 1, g);
    }
}

/// The checks below `n` in which two syndromes differ.
pub open spec fn unexplained_below(a: Seq<Bit>, b: Seq<Bit>, n: int) -> Seq<usize>
    decreases n,
{
    if n <= 0 {
        Seq::empty()
    } else if a[n - 1] != b[n - 1] {
        unexplained_below(a, b, n - 1).push((n - 1) as usize)
    } else {
        unexplained_below(a, b, n - 1)
    }
}

/// The checks in which two syndromes differ.
pub open spec fn unexplained(a: Seq<Bit>, b: Seq<Bit>) -> Seq<usize> {
    unexplained_below(
        a,
        b,
        if a.len() <= b.len() {
            a.len() as int
        } else {
            b.len() as int
        },
    )
}

/// The variables of the first `n` checks of a list, one check after the other.
pub open spec fn touched_below(m: MatrixModel, checks: Seq<usize>, n: int) -> Seq<usize>
    decreases n,
{
    if n <= 0 {
        Seq::empty()
    } else {
        let before = touched_below(m, checks, n - 1);
        if checks[n - 1] < m.rows {
            before + m.row(checks[n - 1] as int)
        } else {
            before
        }
    }
}

/// The variables next to the checks of a list, in increasing order.
pub open spec fn touched(m: MatrixModel, checks: Seq<usize>) -> Seq<usize> {
    sorted_set(touched_below(m, checks, checks.len() as int))
}

/// The posteriors of the variables of a list.
pub open spec fn picked(posterior: Seq<i64>, vars: Seq<usize>) -> Seq<i64> {
    Seq::new(vars.len(), |k: int| posterior[vars[k] as int])
}

proof fn lemma_touched_range(m: MatrixModel, checks: Seq<usize>, n: int)
    requires
        m.wf(),
        0 <= n <= checks.len(),
    ensures
        forall|k: int|
            0 <= k < touched_below(m, checks, n).len() ==> (#[trigger] touched_below(
                m,
                checks,
                n,
            )[k]) < m.cols,
    decreases n,
{
    if n > 0 {
        lemma_touched_range(m, checks, n - 1);
        let before = touched_below(m, checks, n - 1);
        if checks[n - 1] < m.rows {
            let row = m.row(checks[n - 1] as int);
            assert forall|k: int| 0 <= k < (before + row).len() implies (#[trigger] (before
                + row)[k]) < m.cols by {
                if k < before.len() {
                    assert((before + row)[k] == before[k]);
                } else {
                    assert((before + row)[k] == row[k - before.len()]);
                }
            }
        }
    }
}

impl SLGMBPDecoder {
    /// The checks in which two syndromes differ.
    pub fn residual_check_indices(&self, decoded_detectors: &Vec<Bit>, detectors: &Vec<Bit>) -> (r:
        Vec<usize>)
        ensures
            r@ == unexplained(decoded_detectors@, detectors@),
    {
        let n: usize = if decoded_detectors.len() <= detectors.len() {
            decoded_detectors.len()
        } else {
            detectors.len()
        };
        let mut out: Vec<usize> = Vec::new();
        let mut i: usize = 0;
        assert(out@ =~= Seq::empty());
        while i < n
            invariant
                i <= n <= decoded_detectors.len(),
                n <= detectors.len(),
                out@ == unexplained_below(decoded_detectors@, detectors@, i as int),
            decreases n - i,
        {
            if decoded_detectors[i] != detectors[i] {
                out.push(i);
            }
            i += 1;
        }
        out
    }

    /// The variables next to the checks of a list and their posteriors.
    pub fn residual_adjacent_llrs(&self, residual_checks: &Vec<usize>, posterior: &Vec<i64>) -> (r: (
        Vec<usize>,
        Vec<i64>,
    ))
        requires
            self.wf(),
            posterior.len() == self.cols(),
        ensures
            r.0@ == touched(self.check_matrix@, residual_checks@),
            r.1@ == picked(posterior@, r.0@),
            forall|k: int| 0 <= k < r.0.len() ==> (#[trigger] r.0[k]) < self.cols(),
    {
        let ghost m = self.check_matrix@;
        let mut vars: Vec<usize> = Vec::new();
        let mut c: usize = 0;
        assert(vars@ =~= Seq::empty());
        while c < residual_checks.len()
            invariant
                self.wf(),
                m == self.check_matrix@,
                c <= residual_checks.len(),
                vars@ == sorted_set(touched_below(m, residual_checks@, c as int)),
            decreases residual_checks.len() - c,
        {
            let check_idx: usize = residual_checks[c];
            if check_idx < self.check_matrix.rows {
                let row: Vec<usize> = self.check_matrix.row_indices(check_idx);
                let ghost before = touched_below(m, residual_checks@, c as int);
                let mut k: usize = 0;
                assert(before + row@.take(0) =~= before);
                while k < row.len()
                    invariant
                        k <= row.len(),
                        vars@ == sorted_set(before + row@.take(k as int)),
                    decreases row.len() - k,
                {
                    proof {
                        let s = before + row@.take(k as int);
                        assert(s.push(row@[k as int]) =~= before + row@.take(k + 1));
                        assert(s.push(row@[k as int]).drop_last() =~= s);
                    }
                    add_member(&mut vars, row[k]);
                    k += 1;
                }
                assert(row@.take(k as int) =~= row@);
            }
            c += 1;
        }
        let ghost all = touched_below(m, residual_checks@, residual_checks@.len() as int);
        proof {
            lemma_touched_range(m, residual_checks@, residual_checks@.len() as int);
            law_sorted_set(all);
            assert forall|k: int|
                0 <= k < vars.len() implies (#[trigger] vars[k]) < self.cols() by {
                assert(sorted_set(all).contains(vars@[k]));
                let j = choose|j: int| 0 <= j < all.len() && all[j] == vars@[k];
                assert(all[j] < m.cols);
            }
        }
        let mut llrs: Vec<i64> = Vec::new();
        let mut k: usize = 0;
        while k < vars.len()
            invariant
                posterior.len() == self.cols(),
                forall|j: int| 0 <= j < vars.len() ==> (#[trigger] vars[j]) < self.cols(),
                k <= vars.len(),
                llrs.len() == k,
                forall|j: int| 0 <= j < k ==> llrs[j] == picked(posterior@, vars@)[j],
            decreases vars.len() - k,
        {
            let v: usize = vars[k];
            llrs.push(posterior[v]);
            k += 1;
        }
        assert(llrs@ =~= picked(posterior@, vars@));
        (vars, llrs)
    }

    /// The trace of the steepest rise of the best score, if it rose.
    pub fn build_score_spike_trace(
        &self,
        generation_best_fitness: &Vec<i128>,
        generation_best_posteriors: &Vec<Vec<i64>>,
        generation_best_adjacent_variable_indices: &Vec<Vec<usize>>,
        generation_memory_strengths: &Vec<Vec<i64>>,
        gamma_history: &Vec<i64>,
    ) -> (r: Option<SLGMBPScoreSpikeTrace>)
        requires
            forall|g: int|
                0 <= g < generation_best_fitness.len() ==> is_score(
                    #[trigger] generation_best_fitness[g],
                ),
        ensures
            (match r {
                Some(t) => Some(t@),
                None => None,
            }) == spike_trace(
                generation_best_fitness@,
                rows_of(generation_best_posteriors@),
                index_rows_of(generation_best_adjacent_variable_indices@),
                rows_of(generation_memory_strengths@),
                gamma_history@.len(),
            ),
    {
        let ghost scores = generation_best_fitness@;
        let ghost posteriors = rows_of(generation_best_posteriors@);
        let ghost memories = rows_of(generation_memory_strengths@);
        let n: usize = generation_best_fitness.len();
        if n < 2 || generation_best_posteriors.len() != n
            || generation_best_adjacent_variable_indices.len() != n
            || generation_memory_strengths.len() != n || gamma_history.len() != n {
            return None;
        }
        let mut spike: Option<usize> = None;
        let mut best_delta: i128 = 0;
        let mut gen: usize = 1;
        while gen < n
            invariant
                scores == generation_best_fitness@,
                n == scores.len(),
                forall|g: int|
                    0 <= g < generation_best_fitness.len() ==> is_score(
                        #[trigger] generation_best_fitness[g],
                    ),
                1 <= gen <= n,
                (match spike {
                    Some(g) => Some(g as int),
                    None => None,
                }) == steepest_below(scores, gen as int),
                spike matches Some(g) ==> 1 <= g < gen && best_delta == rise(scores, g as int),
            decreases n - gen,
        {
            let prev: i128 = generation_best_fitness[gen - 1];
            let curr: i128 = generation_best_fitness[gen];
            if prev != i128::MIN && curr != i128::MIN {
                assert(is_score(generation_best_fitness[gen - 1]));
                assert(is_score(generation_best_fitness[gen as int]));
                let delta: i128 = curr - prev;
                let better: bool = match spike {
                    Some(_) => delta > best_delta,
                    None => true,
                };
                if better {
                    best_delta = delta;
                    spike = Some(gen);
                }
            }
            gen += 1;
        }
        match spike {
            None => None,
            Some(spike_gen) => {
                if best_delta <= 0 {
                    return None;
                }
                let start: usize = if spike_gen <= 3 {
                    0
                } else {
                    spike_gen - 3
                };
                let end: usize = if n > 3 && spike_gen < n - 3 {
                    spike_gen + 3
                } else {
                    n - 1
                };
                assert(start == window_start(spike_gen as int));
                assert(end == window_end(spike_gen as int, n as int));
                let mut snapshots: Vec<SLGMBPScoreSpikeGenerationSnapshot> = Vec::new();
                let mut g: usize = start;
                while g <= end
                    invariant
                        start <= g <= end + 1,
                        start <= end < n,
                        n == scores.len(),
                        scores == generation_best_fitness@,
                        steepest_below(scores, n as int) == Some(spike_gen as int),
                        start == window_start(spike_gen as int),
                        end == window_end(spike_gen as int, n as int),
                        n == generation_best_posteriors.len(),
                        n == generation_memory_strengths.len(),
                        posteriors == rows_of(generation_best_posteriors@),
                        memories == rows_of(generation_memory_strengths@),
                        snapshots.len() == g - start,
                        forall|k: int|
                            start <= k < g ==> (#[trigger] posteriors[k]).len()
                                == memories[k].len(),
                        forall|k: int|
                            0 <= k < g - start ==> {
                                &&& (#[trigger] snapshots[k]).generation_index == start + k
                                &&& snapshots[k].posterior_llr_all_variables@ == posteriors[start
                                    + k]
                                &&& snapshots[k].memory_strength_all_variables@ == memories[start
                                    + k]
                            },
                    decreases end + 1 - g,
                {
                    if generation_best_posteriors[g].len() != generation_memory_strengths[g].len() {
                        assert(posteriors[g as int].len() != memories[g as int].len());
                        return None;
                    }
                    snapshots.push(
                        SLGMBPScoreSpikeGenerationSnapshot {
                            generation_index: g,
                            posterior_llr_all_variables: generation_best_posteriors[g].clone(),
                            memory_strength_all_variables: generation_memory_strengths[g].clone(),
                        },
                    );
                    g += 1;
                }
                let t = SLGMBPScoreSpikeTrace {
                    spike_generation_index: spike_gen,
                    previous_generation_index: spike_gen - 1,
                    spike_prev_score: generation_best_fitness[spike_gen - 1],
                    spike_score: generation_best_fitness[spike_gen],
                    spike_delta_score: best_delta,
                    window_start_generation: start,
                    window_end_generation: end,
                    spike_residual_adjacent_variable_indices:
                        generation_best_adjacent_variable_indices[spike_gen].clone(),
                    snapshots,
                };
                proof {
                    let expected = spike_trace(
                        scores,
                        posteriors,
                        index_rows_of(generation_best_adjacent_variable_indices@),
                        memories,
                        gamma_history@.len(),
                    );
                    assert(expected is Some);
                    assert(t@.generations =~= expected->0.generations);
                    assert(t@.posteriors =~= expected->0.posteriors);
                    assert(t@.memories =~= expected->0.memories);
                    assert(t@ =~= expected->0);
                }
                Some(t)
            },
        }
    }
}

} // verus!
