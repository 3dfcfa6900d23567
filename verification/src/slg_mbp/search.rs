//! The generational search.

use vstd::prelude::*;

use super::adapt::{drawn_memory, MemberDraws, SLGMBPDecoder};
use super::config::InitStrategy;
use super::evaluate::{
    confidence, fitness, fitness_from_final_marginal, fitness_from_ms_cumsum, low_count, residual,
    residual_weight, FITNESS_LIMIT,
};
use super::ga_ops::{all_fit, members_of, ChildDraws, MemberModel, PopulationMember};
use super::init_population::{
    apply_perturbation_state, perturbation_of, perturbation_state, perturbed,
};
use super::phase::{drift, PhaseModel, PhaseOutcome};
use super::solutions::{cost, solutions_of, CollectedSolution, SolutionModel};
use super::trace::{
    entries_of, index_rows_of, is_score, picked, rows_of, touched, unexplained, EntryModel,
    SLGMBPDynamicsEntry, SearchStage,
};
use crate::arith::{lemma_sum_push, sum, trunc_div, GAIN_LIMIT};
use crate::decoder::{are_bits, zero_bits};
use crate::matrix::Bit;
use crate::min_sum::is_gain;
use crate::relay::are_gains;

verus! {

/// What was drawn for one generation, or for one round of biased relay.
#[derive(Clone, Debug)]
pub struct GenerationDraws {
    pub children: Vec<ChildDraws>,
    pub members: Vec<MemberDraws>,
}

/// What was drawn for one search.
#[derive(Clone, Debug)]
pub struct SearchDraws {
    /// A perturbation for each member of the first population.
    pub population: Vec<Vec<i64>>,
    pub generations: Vec<GenerationDraws>,
}

/// The state of a search.
#[derive(Clone, Debug)]
pub struct SlgSearch {
    pub members: Vec<PopulationMember>,
    pub best_decoding: Vec<Bit>,
    pub best_posterior: Vec<i64>,
    pub best_fitness: i128,
    pub collected: Vec<CollectedSolution>,
    pub phase1_iterations: usize,
    pub total_iterations: usize,
    pub threshold: i64,
    pub generation_best_fitness: Vec<i128>,
    pub gamma_history: Vec<i64>,
    pub residual_weight_history: Vec<usize>,
    pub generation_best_posteriors: Vec<Vec<i64>>,
    pub generation_best_adjacent_variable_indices: Vec<Vec<usize>>,
    pub generation_memory_strengths: Vec<Vec<i64>>,
    pub entries: Vec<SLGMBPDynamicsEntry>,
}

/// What the state of a search holds.
#[verifier::ext_equal]
pub struct SearchModel {
    pub members: Seq<MemberModel>,
    pub best_decoding: Seq<Bit>,
    pub best_posterior: Seq<i64>,
    pub best_fitness: int,
    pub collected: Seq<SolutionModel>,
    pub phase1: nat,
    pub total: nat,
    pub threshold: int,
    pub scores: Seq<i128>,
    pub gammas: Seq<i64>,
    pub residuals: Seq<usize>,
    pub top_posteriors: Seq<Seq<i64>>,
    pub top_adjacent: Seq<Seq<usize>>,
    pub top_memories: Seq<Seq<i64>>,
    pub entries: Seq<EntryModel>,
}

impl View for SlgSearch {
    type V = SearchModel;

    open spec fn view(&self) -> SearchModel {
        SearchModel {
            members: members_of(self.members@),
            best_decoding: self.best_decoding@,
            best_posterior: self.best_posterior@,
            best_fitness: self.best_fitness as int,
            collected: solutions_of(self.collected@),
            phase1: self.phase1_iterations as nat,
            total: self.total_iterations as nat,
            threshold: self.threshold as int,
            scores: self.generation_best_fitness@,
            gammas: self.gamma_history@,
            residuals: self.residual_weight_history@,
            top_posteriors: rows_of(self.generation_best_posteriors@),
            top_adjacent: index_rows_of(self.generation_best_adjacent_variable_indices@),
            top_memories: rows_of(self.generation_memory_strengths@),
            entries: entries_of(self.entries@),
        }
    }
}

impl SearchModel {
    /// The state with a decoding that replaces the best one if its score is higher.
    pub open spec fn improved(self, p: PhaseModel, score: int) -> SearchModel {
        if score > self.best_fitness {
            SearchModel {
                best_decoding: p.decoding,
                best_posterior: p.posterior,
                best_fitness: score,
                ..self
            }
        } else {
            self
        }
    }
}

/// The mean of fixed-point numbers; zero if there are none.
pub open spec fn mean(values: Seq<i64>) -> i64 {
    if values.len() == 0 {
        0
    } else {
        trunc_div(sum(values), values.len() as int) as i64
    }
}

/// The best member of a generation.
#[verifier::ext_equal]
pub struct TopModel {
    pub posterior: Seq<i64>,
    pub adjacent: Seq<usize>,
    pub gamma: Seq<i64>,
}

/// What is known of a generation while its members are decoded.
#[verifier::ext_equal]
pub struct LayerModel {
    pub search: SearchModel,
    pub next: Seq<MemberModel>,
    pub best: int,
    pub iterations: nat,
    pub longest: nat,
    pub found: Seq<SolutionModel>,
    pub top: Option<TopModel>,
    pub stopped: bool,
}

/// One leg of a member: the member as it entered, its memory strengths and the outcome.
#[verifier::ext_equal]
pub struct LegModel {
    pub member: MemberModel,
    pub gamma: Seq<i64>,
    pub phase: PhaseModel,
}

impl SLGMBPDecoder {
    /// The priors.
    pub open spec fn priors(self) -> Seq<i64> {
        self.base_min_sum_config@.priors
    }

    /// The same memory strength for every variable.
    pub open spec fn constant_gamma(self) -> Seq<i64> {
        Seq::new(self.cols(), |v: int| self.config.init_gamma)
    }

    /// The number of checks that a decoding does not explain.
    pub open spec fn unexplained_by(self, det: Seq<Bit>, decoding: Seq<Bit>) -> nat {
        residual(self.check_matrix@.mul_mod2(decoding), det)
    }

    /// The score of an outcome with the given confidence.
    pub open spec fn score_with(self, det: Seq<Bit>, p: PhaseModel, confidence: int) -> int {
        fitness(
            self.unexplained_by(det, p.decoding),
            confidence,
            low_count(p.posterior, self.config.fitness_low_llr_threshold as int),
            self.config.fitness_alpha as int,
            self.config.fitness_beta as int,
            self.config.fitness_low_llr_mu as int,
            self.one(),
        )
    }

    /// The score of an outcome.
    pub open spec fn score(self, det: Seq<Bit>, p: PhaseModel) -> int {
        self.score_with(det, p, confidence(p.posterior))
    }

    /// The variables next to the checks that a decoding does not explain.
    pub open spec fn surroundings(self, det: Seq<Bit>, decoding: Seq<Bit>) -> Seq<usize> {
        touched(
            self.check_matrix@,
            unexplained(self.check_matrix@.mul_mod2(decoding), det),
        )
    }

    /// What is recorded of a member.
    pub open spec fn entry(
        self,
        stage: SearchStage,
        generation: nat,
        member: nat,
        det: Seq<Bit>,
        p: PhaseModel,
        score: int,
    ) -> EntryModel {
        let adjacent = self.surroundings(det, p.decoding);
        EntryModel {
            stage,
            generation,
            member,
            residual: self.unexplained_by(det, p.decoding),
            adjacent_count: adjacent.len(),
            score,
            adjacent,
            llrs: picked(p.posterior, adjacent),
            converged: p.success,
            iterations: p.iterations,
            weight: cost(p.decoding, self.priors()),
        }
    }

    /// The most iterations of the first phase with memory.
    pub open spec fn first_limit(self, observe: bool) -> usize {
        if self.config.biased_relay_mode && !observe {
            self.config.biased_relay_t_0
        } else {
            self.config.t_ms
        }
    }

    /// The first phase of a member with the priors `init`.
    pub open spec fn first_phase(self, det: Seq<Bit>, init: Seq<i64>, observe: bool) -> PhaseModel {
        match self.config.init_strategy {
            InitStrategy::MinSum => self.min_sum_phase(det, init),
            InitStrategy::MemBp => self.mem_bp_phase(
                det,
                Seq::empty(),
                self.first_prior(),
                self.carried(self.first_prior(), init, false),
                self.constant_gamma(),
                self.first_limit(observe),
                false,
            ),
        }
    }

    /// The score of a member after the first phase.
    pub open spec fn first_score(self, det: Seq<Bit>, init: Seq<i64>, observe: bool) -> int {
        let p = self.first_phase(det, init, observe);
        match self.config.init_strategy {
            InitStrategy::MinSum => self.score_with(
                det,
                p,
                drift(
                    self.fresh(init, self.config.t_ms, false),
                    det,
                    self.config.t_ms as nat,
                ),
            ),
            InitStrategy::MemBp => self.score(det, p),
        }
    }

    /// The search before it starts.
    pub open spec fn first_search(self) -> SearchModel {
        SearchModel {
            members: Seq::empty(),
            best_decoding: zero_bits(self.cols()),
            best_posterior: self.first_prior(),
            best_fitness: i128::MIN as int,
            collected: Seq::empty(),
            phase1: 0,
            total: 0,
            threshold: self.first_threshold(),
            scores: Seq::empty(),
            gammas: Seq::empty(),
            residuals: Seq::empty(),
            top_posteriors: Seq::empty(),
            top_adjacent: Seq::empty(),
            top_memories: Seq::empty(),
            entries: Seq::empty(),
        }
    }

    /// The search after member `m` of the first population, perturbed by `values`. A member
    /// that explains the detectors is collected, any other joins the population.
    pub open spec fn phase1_step(
        self,
        s: SearchModel,
        det: Seq<Bit>,
        m: nat,
        values: Seq<i64>,
        observe: bool,
    ) -> SearchModel {
        let state = perturbation_of(self.config.init_perturbation_mode, values);
        let init = perturbed(self.first_prior(), state, self.one());
        let p = self.first_phase(det, init, observe);
        let score = self.first_score(det, init, observe);
        let better = s.improved(p, score);
        let t = SearchModel {
            phase1: if p.iterations > s.phase1 {
                p.iterations
            } else {
                s.phase1
            },
            entries: if observe {
                s.entries.push(self.entry(SearchStage::Phase1, 0, m, det, p, score))
            } else {
                s.entries
            },
            ..better
        };
        if p.success {
            SearchModel {
                collected: s.collected.push(
                    SolutionModel {
                        discovery: p.iterations,
                        cost: cost(p.decoding, self.first_prior()),
                        decoding: p.decoding,
                        posterior: p.posterior,
                    },
                ),
                ..t
            }
        } else {
            SearchModel {
                members: s.members.push(
                    MemberModel {
                        posterior: p.posterior,
                        fitness: score,
                        perturbation: state,
                        adjacent: if observe {
                            self.surroundings(det, p.decoding)
                        } else {
                            Seq::empty()
                        },
                        adaptive_prior: None,
                        mask: None,
                    },
                ),
                ..t
            }
        }
    }

    /// The search after the members of the first population from `m` on, or after enough
    /// solutions.
    pub open spec fn phase1_run(
        self,
        s: SearchModel,
        det: Seq<Bit>,
        population: Seq<Vec<i64>>,
        m: nat,
        observe: bool,
    ) -> SearchModel
        decreases population.len() - m,
    {
        if m >= population.len() {
            s
        } else {
            let n = self.phase1_step(s, det, m, population[m as int]@, observe);
            if n.collected.len() >= self.wanted() {
                n
            } else {
                self.phase1_run(n, det, population, m + 1, observe)
            }
        }
    }

    /// The search after its first phase.
    pub open spec fn phase1(self, det: Seq<Bit>, population: Seq<Vec<i64>>, observe: bool) -> SearchModel {
        self.phase1_run(self.first_search(), det, population, 0, observe)
    }

    /// The leg of a child in generation `g`.
    pub open spec fn generation_leg(
        self,
        det: Seq<Bit>,
        g: nat,
        child: MemberModel,
        threshold: int,
        draws: MemberDraws,
    ) -> LegModel {
        let leg = draws.legs[0];
        let drop = self.config.enable_variable_message_drop;
        if self.switched(g) {
            let gamma = drawn_memory(self.cols(), leg);
            LegModel {
                member: child,
                gamma,
                phase: self.mem_bp_phase(
                    det,
                    leg.coins@,
                    self.priors(),
                    child.posterior,
                    gamma,
                    self.config.t_mem,
                    drop,
                ),
            }
        } else {
            let member = self.readied(self.priors(), child, threshold, draws);
            let prior = self.leg_prior(member);
            let gamma = match self.biased_memory(
                child.posterior,
                member.mask,
                threshold,
                draws.signs@,
            ) {
                Some(x) => x,
                None => self.member_memory(child.posterior, child.adjacent, draws, leg),
            };
            let start = self.biased_start(
                prior,
                child.posterior,
                member.mask,
                threshold,
                self.config.reset_marginal,
                leg.marginal,
            );
            LegModel {
                member,
                gamma,
                phase: self.mem_bp_phase(
                    det,
                    leg.coins@,
                    prior,
                    start,
                    gamma,
                    self.config.t_mem,
                    drop,
                ),
            }
        }
    }

    /// The generation after its child `k`.
    pub open spec fn child_step(
        self,
        layer: LayerModel,
        det: Seq<Bit>,
        g: nat,
        k: nat,
        child: MemberModel,
        draws: MemberDraws,
        observe: bool,
    ) -> LayerModel {
        let s = layer.search;
        let run = self.generation_leg(det, g, child, s.threshold, draws);
        let p = run.phase;
        let score = self.score(det, p);
        let adjacent = self.surroundings(det, p.decoding);
        let better = s.improved(p, score);
        let search = SearchModel {
            residuals: s.residuals.push(self.unexplained_by(det, p.decoding) as usize),
            entries: if observe {
                s.entries.push(self.entry(SearchStage::Generation, g, k, det, p, score))
            } else {
                s.entries
            },
            ..better
        };
        let l = LayerModel {
            search,
            best: if score > layer.best {
                score
            } else {
                layer.best
            },
            top: if score > layer.best {
                Some(TopModel { posterior: p.posterior, adjacent, gamma: run.gamma })
            } else {
                layer.top
            },
            longest: if p.iterations > layer.longest {
                p.iterations
            } else {
                layer.longest
            },
            ..layer
        };
        if p.success {
            LayerModel {
                found: layer.found.push(
                    SolutionModel {
                        discovery: s.total + p.iterations,
                        cost: cost(p.decoding, self.priors()),
                        decoding: p.decoding,
                        posterior: p.posterior,
                    },
                ),
                stopped: p.iterations == 1 && !self.post_selects(),
                ..l
            }
        } else {
            LayerModel {
                iterations: if p.iterations > layer.iterations {
                    p.iterations
                } else {
                    layer.iterations
                },
                next: layer.next.push(
                    MemberModel {
                        posterior: p.posterior,
                        fitness: score,
                        perturbation: run.member.perturbation,
                        adjacent: if observe {
                            adjacent
                        } else {
                            child.adjacent
                        },
                        adaptive_prior: run.member.adaptive_prior,
                        mask: run.member.mask,
                    },
                ),
                ..l
            }
        }
    }

    /// The generation after its children from `k` on.
    pub open spec fn children_run(
        self,
        layer: LayerModel,
        det: Seq<Bit>,
        g: nat,
        children: Seq<MemberModel>,
        draws: Seq<MemberDraws>,
        k: nat,
        observe: bool,
    ) -> LayerModel
        decreases children.len() - k,
    {
        if k >= children.len() || layer.stopped {
            layer
        } else {
            self.children_run(
                self.child_step(
                    layer,
                    det,
                    g,
                    k,
                    children[k as int],
                    draws[k as int],
                    observe,
                ),
                det,
                g,
                children,
                draws,
                k + 1,
                observe,
            )
        }
    }

    /// A generation before its first child.
    pub open spec fn first_layer(self, s: SearchModel) -> LayerModel {
        LayerModel {
            search: s,
            next: Seq::empty(),
            best: i128::MIN as int,
            iterations: 0,
            longest: 0,
            found: Seq::empty(),
            top: None,
            stopped: false,
        }
    }

    /// The search after a generation: with enough solutions it ends, else the members that
    /// did not explain the detectors go on.
    pub open spec fn closed(self, layer: LayerModel, observe: bool) -> SearchModel {
        let s = layer.search;
        let collected = s.collected + layer.found;
        let done = collected.len() >= self.wanted();
        let t = SearchModel {
            collected,
            gammas: s.gammas.push(
                match layer.top {
                    Some(t) => mean(t.gamma),
                    None => 0i64,
                },
            ),
            scores: if observe || !done {
                s.scores.push(layer.best as i128)
            } else {
                s.scores
            },
            top_posteriors: if observe {
                s.top_posteriors.push(
                    match layer.top {
                        Some(t) => t.posterior,
                        None => s.best_posterior,
                    },
                )
            } else {
                s.top_posteriors
            },
            top_adjacent: if observe {
                s.top_adjacent.push(
                    match layer.top {
                        Some(t) => t.adjacent,
                        None => Seq::empty(),
                    },
                )
            } else {
                s.top_adjacent
            },
            top_memories: if observe {
                s.top_memories.push(
                    match layer.top {
                        Some(t) => t.gamma,
                        None => self.constant_gamma(),
                    },
                )
            } else {
                s.top_memories
            },
            ..s
        };
        if done {
            t
        } else {
            SearchModel {
                members: layer.next,
                total: s.total + layer.iterations,
                threshold: self.next_threshold(s.threshold, layer.longest),
                ..t
            }
        }
    }

    /// The search after generation `g`.
    pub open spec fn generation(
        self,
        s: SearchModel,
        det: Seq<Bit>,
        g: nat,
        draws: GenerationDraws,
        observe: bool,
    ) -> SearchModel {
        self.closed(
            self.children_run(
                self.first_layer(s),
                det,
                g,
                self.config.next_generation(s.members, draws.children@),
                draws.members@,
                0,
                observe,
            ),
            observe,
        )
    }

    /// The search after the generations from `g` on, or after enough solutions.
    pub open spec fn generations_run(
        self,
        s: SearchModel,
        det: Seq<Bit>,
        draws: Seq<GenerationDraws>,
        g: nat,
        observe: bool,
    ) -> SearchModel
        decreases self.config.g_max - g,
    {
        if g >= self.config.g_max {
            s
        } else {
            let n = self.generation(s, det, g, draws[g as int], observe);
            if n.collected.len() >= self.wanted() {
                n
            } else {
                self.generations_run(n, det, draws, g + 1, observe)
            }
        }
    }

    /// The number of legs for which draws are needed.
    pub open spec fn leg_count(self) -> int {
        if self.config.biased_relay_mode {
            1 + self.config.biased_relay_r_relay
        } else {
            1
        }
    }

    /// What was drawn for a generation suffices.
    pub open spec fn generation_supplied(self, draws: GenerationDraws) -> bool {
        &&& self.config.can_breed(self.config.ensemble_size as nat, draws.children@)
        &&& draws.members.len() >= self.config.ensemble_size
        &&& forall|k: int|
            0 <= k < draws.members.len() ==> (#[trigger] draws.members[k]).legs.len()
                >= self.leg_count()
    }

    /// What was drawn for a search suffices.
    pub open spec fn supplied(self, draws: SearchDraws) -> bool {
        &&& draws.population.len() == self.config.ensemble_size
        &&& draws.generations.len() >= self.config.g_max
        &&& self.config.biased_relay_mode ==> draws.generations.len() >= self.config.rounds()
        &&& forall|g: int|
            0 <= g < draws.generations.len() ==> self.generation_supplied(
                #[trigger] draws.generations[g],
            )
    }

    /// A solution explains the detectors.
    pub open spec fn solves(self, det: Seq<Bit>, x: SolutionModel) -> bool {
        &&& x.decoding.len() == self.cols()
        &&& self.check_matrix@.mul_mod2(x.decoding) == det
        &&& self.fits(x.posterior)
        &&& x.discovery <= usize::MAX
        &&& i128::MIN <= x.cost <= i128::MAX
    }

    /// All solutions of a list explain the detectors.
    pub open spec fn all_solve(self, det: Seq<Bit>, s: Seq<SolutionModel>) -> bool {
        forall|i: int| 0 <= i < s.len() ==> self.solves(det, #[trigger] s[i])
    }

    /// What every step of a search keeps.
    pub open spec fn sound(self, s: SearchModel, det: Seq<Bit>) -> bool {
        &&& all_fit(s.members, self.cols())
        &&& s.members.len() <= self.config.ensemble_size
        &&& s.best_decoding.len() == self.cols()
        &&& self.fits(s.best_posterior)
        &&& self.all_solve(det, s.collected)
        &&& forall|g: int| 0 <= g < s.scores.len() ==> is_score(#[trigger] s.scores[g])
        &&& 0 <= s.threshold <= i64::MAX
    }

    /// What every step of a generation keeps.
    pub open spec fn layer_sound(self, l: LayerModel, det: Seq<Bit>) -> bool {
        &&& self.sound(l.search, det)
        &&& all_fit(l.next, self.cols())
        &&& self.all_solve(det, l.found)
        &&& l.best == i128::MIN || -FITNESS_LIMIT < l.best < FITNESS_LIMIT
        &&& l.iterations <= self.config.t_mem
        &&& l.longest <= self.config.t_mem
        &&& l.top matches Some(t) ==> self.fits(t.posterior) && are_gains(t.gamma, self.cols())
    }
}

/// A leg of a member as it was run.
#[derive(Clone, Debug)]
pub struct LegRun {
    pub gamma: Vec<i64>,
    pub phase: PhaseOutcome,
}

/// A generation while its members are decoded.
#[derive(Clone, Debug)]
pub struct SlgLayer {
    pub search: SlgSearch,
    pub next: Vec<PopulationMember>,
    pub best: i128,
    pub iterations: usize,
    pub longest: usize,
    pub found: Vec<CollectedSolution>,
    pub top: Option<SlgTop>,
    pub stopped: bool,
}

/// The best member of a generation.
#[derive(Clone, Debug)]
pub struct SlgTop {
    pub posterior: Vec<i64>,
    pub adjacent: Vec<usize>,
    pub gamma: Vec<i64>,
}

impl View for SlgTop {
    type V = TopModel;

    open spec fn view(&self) -> TopModel {
        TopModel { posterior: self.posterior@, adjacent: self.adjacent@, gamma: self.gamma@ }
    }
}

impl View for SlgLayer {
    type V = LayerModel;

    open spec fn view(&self) -> LayerModel {
        LayerModel {
            search: self.search@,
            next: members_of(self.next@),
            best: self.best as int,
            iterations: self.iterations as nat,
            longest: self.longest as nat,
            found: solutions_of(self.found@),
            top: match self.top {
                Some(t) => Some(t@),
                None => None,
            },
            stopped: self.stopped,
        }
    }
}

/// The mean of memory strengths.
pub fn mean_of(values: &Vec<i64>) -> (r: i64)
    requires
        are_gains(values@, values@.len()),
    ensures
        r == mean(values@),
{
    if values.len() == 0 {
        return 0;
    }
    let mut total: i128 = 0;
    let mut v: usize = 0;
    assert(values@.take(0) =~= Seq::empty());
    while v < values.len()
        invariant
            are_gains(values@, values@.len()),
            v <= values.len(),
            total == sum(values@.take(v as int)),
            -(v * GAIN_LIMIT) <= total <= v * GAIN_LIMIT,
        decreases values.len() - v,
    {
        proof {
            let t = values@.take(v as int);
            lemma_sum_push(t, values@[v as int]);
            assert(t.push(values@[v as int]) =~= values@.take(v + 1));
            assert(is_gain(values@[v as int]));
            assert((v + 1) * GAIN_LIMIT == v * GAIN_LIMIT + GAIN_LIMIT) by (nonlinear_arith);
            assert((v + 1) * GAIN_LIMIT <= 0xffff_ffff_ffff_ffff * GAIN_LIMIT) by (nonlinear_arith)
                requires
                    v + 1 <= 0xffff_ffff_ffff_ffff,
                    GAIN_LIMIT >= 0,
            ;
        }
        total = total + (values[v] as i128);
        v += 1;
    }
    let n: i128 = values.len() as i128;
    proof {
        assert(values@.take(v as int) =~= values@);
        let q = trunc_div(total as int, n as int);
        let m = if total < 0 {
            -total
        } else {
            total as int
        };
        assert(0 <= m / (n as int) <= GAIN_LIMIT) by (nonlinear_arith)
            requires
                0 <= m <= n * GAIN_LIMIT,
                n > 0,
        ;
    }
    if total >= 0 {
        (total / n) as i64
    } else {
        -(((-total) / n) as i64)
    }
}

impl SLGMBPDecoder {
    /// How many checks an outcome does not explain, and its score.
    pub fn assess(&self, detectors: &Vec<Bit>, p: &PhaseOutcome) -> (r: (usize, i128))
        requires
            self.wf(),
            p.decoding.len() == self.cols(),
            self.fits(p.posterior@),
            detectors.len() == self.check_matrix@.rows,
        ensures
            r.0 == self.unexplained_by(detectors@, p.decoding@),
            r.1 == self.score(detectors@, p@),
            -FITNESS_LIMIT < r.1 < FITNESS_LIMIT,
    {
        let decoded: Vec<Bit> = self.check_matrix.mul_mod2(&p.decoding);
        let residual_w: usize = residual_weight(&decoded, detectors);
        let score: i128 = fitness_from_final_marginal(
            residual_w,
            &p.posterior,
            self.config.fitness_alpha,
            self.config.fitness_beta,
            self.config.fitness_low_llr_mu,
            self.config.fitness_low_llr_threshold,
            self.base_min_sum_config.unit(),
        );
        (residual_w, score)
    }

    /// The variables next to the checks that a decoding does not explain, and their
    /// posteriors.
    pub fn surroundings_of(&self, detectors: &Vec<Bit>, p: &PhaseOutcome) -> (r: (Vec<usize>, Vec<i64>))
        requires
            self.wf(),
            p.decoding.len() == self.cols(),
            self.fits(p.posterior@),
            detectors.len() == self.check_matrix@.rows,
        ensures
            r.0@ == self.surroundings(detectors@, p.decoding@),
            r.1@ == picked(p.posterior@, r.0@),
    {
        let decoded: Vec<Bit> = self.check_matrix.mul_mod2(&p.decoding);
        let checks: Vec<usize> = self.residual_check_indices(&decoded, detectors);
        self.residual_adjacent_llrs(&checks, &p.posterior)
    }

    /// What is recorded of a member.
    pub fn build_entry(
        &self,
        stage: SearchStage,
        generation_index: usize,
        member_index: usize,
        detectors: &Vec<Bit>,
        p: &PhaseOutcome,
        score: i128,
    ) -> (r: SLGMBPDynamicsEntry)
        requires
            self.wf(),
            p.decoding.len() == self.cols(),
            are_bits(p.decoding@),
            self.fits(p.posterior@),
            detectors.len() == self.check_matrix@.rows,
        ensures
            r@ == self.entry(
                stage,
                generation_index as nat,
                member_index as nat,
                detectors@,
                p@,
                score as int,
            ),
    {
        let decoded: Vec<Bit> = self.check_matrix.mul_mod2(&p.decoding);
        let residual_w: usize = residual_weight(&decoded, detectors);
        let (adjacent, llrs) = self.surroundings_of(detectors, p);
        let weight: i128 = self.estimated_error_weight(
            &p.decoding,
            &self.base_min_sum_config.log_prior_ratios,
        );
        let r = SLGMBPDynamicsEntry {
            stage,
            generation_index,
            member_index,
            residual_syndrome_count: residual_w,
            residual_adjacent_variable_count: adjacent.len(),
            score,
            residual_adjacent_variable_indices: adjacent,
            residual_adjacent_variable_llrs: llrs,
            converged: p.success,
            iteration_count: p.iterations,
            estimated_error_weight: weight,
        };
        assert(r@ =~= self.entry(
            stage,
            generation_index as nat,
            member_index as nat,
            detectors@,
            p@,
            score as int,
        ));
        r
    }

    /// The same memory strength for every variable.
    pub fn constant_memory(&self) -> (r: Vec<i64>)
        requires
            self.wf(),
        ensures
            r@ == self.constant_gamma(),
            are_gains(r@, self.cols()),
    {
        let r: Vec<i64> = vec![self.config.init_gamma; self.check_matrix.cols];
        assert(r@ =~= self.constant_gamma());
        r
    }

    /// The first phase of a member with the priors `init`, and its score.
    fn run_first_phase(&self, detectors: &Vec<Bit>, init: &Vec<i64>, observe: bool) -> (r: (
        PhaseOutcome,
        i128,
    ))
        requires
            self.wf(),
            self.fits(init@),
            detectors.len() == self.check_matrix@.rows,
        ensures
            r.0@ == self.first_phase(detectors@, init@, observe),
            r.1 == self.first_score(detectors@, init@, observe),
            -FITNESS_LIMIT < r.1 < FITNESS_LIMIT,
            self.phase_fits(r.0@, (self.config.t_ms + self.config.biased_relay_t_0) as nat),
            r.0.success ==> self.check_matrix@.mul_mod2(r.0.decoding@) == detectors@,
    {
        match self.config.init_strategy {
            InitStrategy::MinSum => {
                let (p, total) = self.run_min_sum_phase(detectors, init);
                let decoded: Vec<Bit> = self.check_matrix.mul_mod2(&p.decoding);
                let residual_w: usize = residual_weight(&decoded, detectors);
                let score: i128 = fitness_from_ms_cumsum(
                    residual_w,
                    total,
                    &p.posterior,
                    self.config.fitness_alpha,
                    self.config.fitness_beta,
                    self.config.fitness_low_llr_mu,
                    self.config.fitness_low_llr_threshold,
                    self.base_min_sum_config.unit(),
                );
                (p, score)
            },
            InitStrategy::MemBp => {
                let prior: Vec<i64> = self.initial_phase_prior_llr();
                let start: Vec<i64> = self.initial_marginal(&prior, init, false);
                let gamma: Vec<i64> = self.constant_memory();
                let limit: usize = if self.config.biased_relay_mode && !observe {
                    self.config.biased_relay_t_0
                } else {
                    self.config.t_ms
                };
                let none: Vec<Vec<bool>> = Vec::new();
                assert(none@ =~= Seq::empty());
                let p = self.run_mem_bp_phase(
                    detectors,
                    &none,
                    &prior,
                    &start,
                    &gamma,
                    limit,
                    false,
                );
                let (_, score) = self.assess(detectors, &p);
                (p, score)
            },
        }
    }

    /// Takes note of a decoding if its score is the highest so far.
    pub fn improve(&self, s: &mut SlgSearch, p: &PhaseOutcome, score: i128)
        ensures
            final(s)@ == old(s)@.improved(p@, score as int),
            final(s).members == old(s).members,
            final(s).collected == old(s).collected,
    {
        let ghost before = s@;
        if score > s.best_fitness {
            s.best_fitness = score;
            s.best_decoding = p.decoding.clone();
            s.best_posterior = p.posterior.clone();
        }
        assert(s@ =~= before.improved(p@, score as int));
    }

    /// The first phase of the search.
    pub fn run_phase1(&self, detectors: &Vec<Bit>, population: &Vec<Vec<i64>>, observe: bool) -> (r:
        SlgSearch)
        requires
            self.wf(),
            population.len() == self.config.ensemble_size,
            detectors.len() == self.check_matrix@.rows,
        ensures
            r@ == self.phase1(detectors@, population@, observe),
            self.sound(r@, detectors@),
            r.phase1_iterations <= self.config.t_ms + self.config.biased_relay_t_0,
            r@.scores == Seq::<i128>::empty(),
            r@.gammas == Seq::<i64>::empty(),
            r@.top_posteriors == Seq::<Seq<i64>>::empty(),
            r@.top_adjacent == Seq::<Seq<usize>>::empty(),
            r@.top_memories == Seq::<Seq<i64>>::empty(),
    {
        let prior: Vec<i64> = self.initial_phase_prior_llr();
        let one: i64 = self.base_min_sum_config.unit();
        let mut s = SlgSearch {
            members: Vec::new(),
            best_decoding: vec![0; self.check_matrix.cols],
            best_posterior: prior.clone(),
            best_fitness: i128::MIN,
            collected: Vec::new(),
            phase1_iterations: 0,
            total_iterations: 0,
            threshold: self.initial_adaptive_perturbation_llr_threshold(),
            generation_best_fitness: Vec::new(),
            gamma_history: Vec::new(),
            residual_weight_history: Vec::new(),
            generation_best_posteriors: Vec::new(),
            generation_best_adjacent_variable_indices: Vec::new(),
            generation_memory_strengths: Vec::new(),
            entries: Vec::new(),
        };
        proof {
            let f = self.first_search();
            assert(s@.members =~= f.members);
            assert(s@.best_decoding =~= f.best_decoding);
            assert(s@.collected =~= f.collected);
            assert(s@ =~= f);
        }
        let ghost det = detectors@;
        let ghost all = self.phase1(det, population@, observe);
        let mut done: bool = false;
        let mut m: usize = 0;
        while m < population.len() && !done
            invariant
                self.wf(),
                population.len() == self.config.ensemble_size,
                det == detectors@,
                detectors.len() == self.check_matrix@.rows,
                prior@ == self.first_prior(),
                self.fits(prior@),
                one == self.one(),
                1 <= one <= GAIN_LIMIT,
                m <= population.len(),
                s.members.len() <= m,
                self.sound(s@, det),
                s.phase1_iterations <= self.config.t_ms + self.config.biased_relay_t_0,
                s@.scores == Seq::<i128>::empty(),
                s@.gammas == Seq::<i64>::empty(),
                s@.top_posteriors == Seq::<Seq<i64>>::empty(),
                s@.top_adjacent == Seq::<Seq<usize>>::empty(),
                s@.top_memories == Seq::<Seq<i64>>::empty(),
                all == (if done {
                    s@
                } else {
                    self.phase1_run(s@, det, population@, m as nat, observe)
                }),
            decreases population.len() - m + (if done {
                0int
            } else {
                1
            }),
        {
            let ghost before = s@;
            let ghost expected = self.phase1_step(before, det, m as nat, population@[m as int]@, observe);
            let state = perturbation_state(self.config.init_perturbation_mode, &population[m]);
            let init: Vec<i64> = apply_perturbation_state(&prior, &state, one);
            let (p, score) = self.run_first_phase(detectors, &init, observe);
            self.improve(&mut s, &p, score);
            if observe {
                let entry = self.build_entry(SearchStage::Phase1, 0, m, detectors, &p, score);
                let ghost old_entries = s.entries@;
                s.entries.push(entry);
                assert(entries_of(s.entries@) =~= entries_of(old_entries).push(entry@));
            }
            if p.iterations > s.phase1_iterations {
                s.phase1_iterations = p.iterations;
            }
            if p.success {
                self.collect_solution(
                    &mut s.collected,
                    p.iterations,
                    &p.decoding,
                    &p.posterior,
                    &prior,
                );
                assert(s@ =~= expected);
                proof {
                    assert(s@.collected == before.collected.push(s@.collected.last()));
                    assert(self.solves(det, s@.collected.last())) by {
                        assert(s@.collected.last() == s.collected@.last()@);
                    }
                    assert(self.all_solve(det, s@.collected));
                }
            } else {
                let adjacent: Vec<usize> = if observe {
                    let (adjacent, _) = self.surroundings_of(detectors, &p);
                    adjacent
                } else {
                    Vec::new()
                };
                let member = PopulationMember {
                    posterior: p.posterior,
                    fitness: score,
                    perturbation_state: state,
                    residual_adjacent_variable_indices: adjacent,
                    adaptive_prior: None,
                    adaptive_target_mask: None,
                };
                let ghost old_members = s.members@;
                s.members.push(member);
                proof {
                    assert(members_of(s.members@) =~= members_of(old_members).push(member@));
                    assert(member@.wf(self.cols()));
                    if !observe {
                        assert(adjacent@ =~= Seq::empty());
                    }
                    assert(s@ =~= expected);
                }
            }
            assert(s@ == expected);
            done = self.should_stop_after_success_count(s.collected.len());
            m += 1;
        }
        s
    }
}

} // verus!
