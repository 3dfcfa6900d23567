//! The generations of a search.

use vstd::prelude::*;

use super::adapt::{mask_of, MemberDraws, SLGMBPDecoder};
use super::ga_ops::{all_fit, build_next_generation, members_of, PopulationMember};
use super::search::{mean_of, GenerationDraws, LegRun, SlgLayer, SlgSearch, SlgTop};
use super::solutions::{solutions_of, CollectedSolution};
use super::trace::{entries_of, index_rows_of, is_score, rows_of, SearchStage};
use crate::matrix::Bit;
use crate::relay::are_gains;

verus! {

impl SLGMBPDecoder {
    /// The leg of a child in generation `gen_idx`.
    pub fn run_generation_leg(
        &self,
        detectors: &Vec<Bit>,
        gen_idx: usize,
        child: &mut PopulationMember,
        threshold: i64,
        draws: &MemberDraws,
    ) -> (r: LegRun)
        requires
            self.wf(),
            old(child)@.wf(self.cols()),
            threshold >= 0,
            draws.legs.len() >= 1,
            detectors.len() == self.check_matrix@.rows,
        ensures
            ({
                let run = self.generation_leg(
                    detectors@,
                    gen_idx as nat,
                    old(child)@,
                    threshold as int,
                    *draws,
                );
                &&& final(child)@ == run.member
                &&& r.gamma@ == run.gamma
                &&& r.phase@ == run.phase
            }),
            final(child)@.wf(self.cols()),
            are_gains(r.gamma@, self.cols()),
            self.phase_fits(r.phase@, self.config.t_mem as nat),
            r.phase.success ==> self.check_matrix@.mul_mod2(r.phase.decoding@) == detectors@,
    {
        let ghost start = child@;
        let base: Vec<i64> = self.prior_llr();
        let drop: bool = self.config.enable_variable_message_drop;
        if self.should_use_switched_relay_generation(gen_idx) {
            let gamma: Vec<i64> = self.sample_relay_gamma(base.len(), &draws.legs[0]);
            let phase = self.run_mem_bp_phase(
                detectors,
                &draws.legs[0].coins,
                &base,
                &child.posterior,
                &gamma,
                self.config.t_mem,
                drop,
            );
            return LegRun { gamma, phase };
        }
        let prior: Vec<i64> = self.build_generation_phase_prior(&base, child, threshold, draws);
        let ghost member = child@;
        assert(member.posterior == start.posterior);
        assert(member.adjacent == start.adjacent);
        let mask: Option<&Vec<bool>> = match &child.adaptive_target_mask {
            Some(b) => Some(b),
            None => None,
        };
        assert(mask_of(mask) == member.mask);
        let gamma: Vec<i64> = match self.build_adaptive_memory_strength(
            &child.posterior,
            mask,
            threshold,
            &draws.signs,
        ) {
            Some(g) => g,
            None => self.sample_member_memory_strength(
                &child.posterior,
                &child.residual_adjacent_variable_indices,
                draws,
                &draws.legs[0],
            ),
        };
        let first: Vec<i64> = self.build_adaptive_initial_marginal(
            &prior,
            &child.posterior,
            mask,
            threshold,
            self.config.reset_marginal,
            &draws.legs[0].marginal,
        );
        let phase = self.run_mem_bp_phase(
            detectors,
            &draws.legs[0].coins,
            &prior,
            &first,
            &gamma,
            self.config.t_mem,
            drop,
        );
        LegRun { gamma, phase }
    }

    /// Decodes one child of a generation.
    pub fn run_child(
        &self,
        layer: &mut SlgLayer,
        detectors: &Vec<Bit>,
        gen_idx: usize,
        member_index: usize,
        child: PopulationMember,
        draws: &MemberDraws,
        observe: bool,
    )
        requires
            self.wf(),
            self.layer_sound(old(layer)@, detectors@),
            old(layer)@.search.total + self.config.t_mem <= usize::MAX,
            child@.wf(self.cols()),
            draws.legs.len() >= 1,
            detectors.len() == self.check_matrix@.rows,
        ensures
            final(layer)@ == self.child_step(
                old(layer)@,
                detectors@,
                gen_idx as nat,
                member_index as nat,
                child@,
                *draws,
                observe,
            ),
            self.layer_sound(final(layer)@, detectors@),
            final(layer)@.search.total == old(layer)@.search.total,
            final(layer)@.next.len() <= old(layer)@.next.len() + 1,
    {
        let ghost det = detectors@;
        let ghost start = layer@;
        let ghost given = child@;
        let ghost expected = self.child_step(
            start,
            det,
            gen_idx as nat,
            member_index as nat,
            given,
            *draws,
            observe,
        );
        let mut child = child;
        let threshold: i64 = layer.search.threshold;
        let LegRun { gamma, phase: p } = self.run_generation_leg(
            detectors,
            gen_idx,
            &mut child,
            threshold,
            draws,
        );
        let (residual_w, score) = self.assess(detectors, &p);
        let (adjacent, _) = self.surroundings_of(detectors, &p);
        self.improve(&mut layer.search, &p, score);
        layer.search.residual_weight_history.push(residual_w);
        if observe {
            let entry = self.build_entry(
                SearchStage::Generation,
                gen_idx,
                member_index,
                detectors,
                &p,
                score,
            );
            let ghost old_entries = layer.search.entries@;
            layer.search.entries.push(entry);
            assert(entries_of(layer.search.entries@) =~= entries_of(old_entries).push(entry@));
        }
        assert(layer.search@ =~= expected.search);
        if score > layer.best {
            layer.best = score;
            layer.top = Some(
                SlgTop { posterior: p.posterior.clone(), adjacent: adjacent.clone(), gamma },
            );
        }
        if p.iterations > layer.longest {
            layer.longest = p.iterations;
        }
        if p.success {
            let discovery: usize = layer.search.total_iterations + p.iterations;
            self.collect_solution(
                &mut layer.found,
                discovery,
                &p.decoding,
                &p.posterior,
                &self.base_min_sum_config.log_prior_ratios,
            );
            layer.stopped = p.iterations == 1 && self.should_early_break_on_single_iter_success();
            proof {
                assert(layer@ =~= expected);
                assert(layer@.found.last() == layer.found@.last()@);
                assert(self.solves(det, layer@.found.last()));
                assert forall|i: int| 0 <= i < layer@.found.len() implies self.solves(
                    det,
                    #[trigger] layer@.found[i],
                ) by {
                    if i < start.found.len() {
                        assert(layer@.found[i] == start.found[i]);
                    }
                }
            }
        } else {
            if p.iterations > layer.iterations {
                layer.iterations = p.iterations;
            }
            let kept: Vec<usize> = if observe {
                adjacent
            } else {
                child.residual_adjacent_variable_indices
            };
            let member = PopulationMember {
                posterior: p.posterior,
                fitness: score,
                perturbation_state: child.perturbation_state,
                residual_adjacent_variable_indices: kept,
                adaptive_prior: child.adaptive_prior,
                adaptive_target_mask: child.adaptive_target_mask,
            };
            let ghost old_next = layer.next@;
            layer.next.push(member);
            proof {
                assert(members_of(layer.next@) =~= members_of(old_next).push(member@));
                assert(member@.wf(self.cols()));
                assert(layer@ =~= expected);
                assert forall|i: int| 0 <= i < layer@.next.len() implies (
                #[trigger] layer@.next[i]).wf(self.cols()) by {
                    if i < start.next.len() {
                        assert(layer@.next[i] == start.next[i]);
                    }
                }
            }
        }
    }

    /// Ends a generation.
    fn close_layer(&self, layer: SlgLayer, observe: bool) -> (r: SlgSearch)
        requires
            self.wf(),
            exists|det: Seq<Bit>| self.layer_sound(layer@, det),
            layer@.search.total + self.config.t_mem <= usize::MAX,
        ensures
            r@ == self.closed(layer@, observe),
    {
        let ghost model = layer@;
        let ghost expected = self.closed(model, observe);
        proof {
            let det = choose|det: Seq<Bit>| self.layer_sound(layer@, det);
            assert(self.sound(layer@.search, det));
        }
        let SlgLayer { search, next, best, iterations, longest, found, top, stopped: _ } = layer;
        let mut s: SlgSearch = search;
        let mean_gamma: i64 = match &top {
            Some(t) => mean_of(&t.gamma),
            None => 0,
        };
        s.gamma_history.push(mean_gamma);
        let ghost old_collected = s.collected@;
        let mut found: Vec<CollectedSolution> = found;
        let ghost given = found@;
        s.collected.append(&mut found);
        assert(solutions_of(s.collected@) =~= solutions_of(old_collected) + solutions_of(given));
        let done: bool = self.should_stop_after_success_count(s.collected.len());
        if observe || !done {
            s.generation_best_fitness.push(best);
        }
        if observe {
            let (posterior, adjacent, gamma): (Vec<i64>, Vec<usize>, Vec<i64>) = match top {
                Some(t) => (t.posterior, t.adjacent, t.gamma),
                None => (s.best_posterior.clone(), Vec::new(), self.constant_memory()),
            };
            let ghost a = s.generation_best_posteriors@;
            let ghost b = s.generation_best_adjacent_variable_indices@;
            let ghost c = s.generation_memory_strengths@;
            s.generation_best_posteriors.push(posterior);
            s.generation_best_adjacent_variable_indices.push(adjacent);
            s.generation_memory_strengths.push(gamma);
            proof {
                assert(rows_of(s.generation_best_posteriors@) =~= rows_of(a).push(posterior@));
                assert(index_rows_of(s.generation_best_adjacent_variable_indices@)
                    =~= index_rows_of(b).push(adjacent@));
                assert(rows_of(s.generation_memory_strengths@) =~= rows_of(c).push(gamma@));
                if model.top is None {
                    assert(adjacent@ =~= Seq::empty());
                }
            }
        }
        if !done {
            s.members = next;
            s.total_iterations = s.total_iterations + iterations;
            s.threshold = self.next_adaptive_perturbation_llr_threshold(s.threshold, longest);
        }
        assert(s@ =~= expected);
        s
    }

    /// Runs one generation.
    pub fn run_generation(
        &self,
        s: SlgSearch,
        detectors: &Vec<Bit>,
        gen_idx: usize,
        draws: &GenerationDraws,
        observe: bool,
    ) -> (r: SlgSearch)
        requires
            self.wf(),
            self.sound(s@, detectors@),
            s@.total + self.config.t_mem <= usize::MAX,
            self.generation_supplied(*draws),
            detectors.len() == self.check_matrix@.rows,
        ensures
            r@ == self.generation(s@, detectors@, gen_idx as nat, *draws, observe),
            self.sound(r@, detectors@),
            r@.total <= s@.total + self.config.t_mem,
            r@.gammas.len() == s@.gammas.len() + 1,
    {
        let ghost det = detectors@;
        let ghost start = s@;
        proof {
            if start.members.len() > 0 {
                assert(start.members[0].wf(self.cols()));
            }
        }
        let children: Vec<PopulationMember> = build_next_generation(
            &s.members,
            &self.config,
            &draws.children,
        );
        let ghost kids = members_of(children@);
        let mut layer = SlgLayer {
            search: s,
            next: Vec::new(),
            best: i128::MIN,
            iterations: 0,
            longest: 0,
            found: Vec::new(),
            top: None,
            stopped: false,
        };
        proof {
            let f = self.first_layer(start);
            assert(layer@.next =~= f.next);
            assert(layer@.found =~= f.found);
            assert(layer@ =~= f);
        }
        let ghost all = self.children_run(
            layer@,
            det,
            gen_idx as nat,
            kids,
            draws.members@,
            0,
            observe,
        );
        let mut k: usize = 0;
        while k < children.len() && !layer.stopped
            invariant
                self.wf(),
                det == detectors@,
                detectors.len() == self.check_matrix@.rows,
                self.layer_sound(layer@, det),
                layer@.search.total == start.total,
                start.total + self.config.t_mem <= usize::MAX,
                self.generation_supplied(*draws),
                kids == members_of(children@),
                all_fit(kids, self.cols()),
                kids.len() <= self.config.ensemble_size,
                k <= children.len(),
                layer@.next.len() <= k,
                layer@.search.gammas == start.gammas,
                all == self.children_run(
                    layer@,
                    det,
                    gen_idx as nat,
                    kids,
                    draws.members@,
                    k as nat,
                    observe,
                ),
            decreases children.len() - k,
        {
            let child: PopulationMember = children[k].clone();
            assert(kids[k as int] == child@);
            assert(draws.members[k as int].legs.len() >= self.leg_count());
            self.run_child(
                &mut layer,
                detectors,
                gen_idx,
                k,
                child,
                &draws.members[k],
                observe,
            );
            k += 1;
        }
        assert(layer@ == all);
        assert(self.layer_sound(layer@, det));
        let ghost end = layer@;
        let r = self.close_layer(layer, observe);
        proof {
            assert forall|g: int| 0 <= g < r@.scores.len() implies is_score(
                #[trigger] r@.scores[g],
            ) by {
                if g < end.search.scores.len() {
                    assert(r@.scores[g] == end.search.scores[g]);
                }
            }
            assert forall|i: int| 0 <= i < r@.collected.len() implies self.solves(
                det,
                #[trigger] r@.collected[i],
            ) by {
                if i < end.search.collected.len() {
                    assert(r@.collected[i] == end.search.collected[i]);
                } else {
                    assert(r@.collected[i] == end.found[i - end.search.collected.len()]);
                }
            }
            self.lemma_threshold(end.search.threshold, end.longest);
        }
        r
    }

    /// The threshold of confidence is a magnitude.
    proof fn lemma_threshold(self, current: int, iterations: nat)
        requires
            self.wf(),
        ensures
            0 <= self.next_threshold(current, iterations) <= i64::MAX,
    {
    }

    /// Runs the generations until there are enough solutions.
    pub fn run_generations(
        &self,
        s: SlgSearch,
        detectors: &Vec<Bit>,
        draws: &Vec<GenerationDraws>,
        observe: bool,
    ) -> (r: SlgSearch)
        requires
            self.wf(),
            self.sound(s@, detectors@),
            s@.total + self.config.g_max * self.config.t_mem + self.config.t_mem <= usize::MAX,
            s@.collected.len() < self.wanted(),
            draws.len() >= self.config.g_max,
            forall|g: int|
                0 <= g < draws.len() ==> self.generation_supplied(#[trigger] draws[g]),
            detectors.len() == self.check_matrix@.rows,
        ensures
            r@ == self.generations_run(s@, detectors@, draws@, 0, observe),
            self.sound(r@, detectors@),
    {
        let ghost det = detectors@;
        let ghost all = self.generations_run(s@, det, draws@, 0, observe);
        let ghost base = s@.total;
        let g_max: usize = self.config.g_max;
        let mut s: SlgSearch = s;
        let mut done: bool = false;
        let mut g: usize = 0;
        while g < g_max && !done
            invariant
                self.wf(),
                g_max == self.config.g_max,
                det == detectors@,
                detectors.len() == self.check_matrix@.rows,
                draws.len() >= g_max,
                forall|i: int|
                    0 <= i < draws.len() ==> self.generation_supplied(#[trigger] draws[i]),
                g <= g_max,
                self.sound(s@, det),
                s@.total <= base + g * self.config.t_mem,
                base + g_max * self.config.t_mem + self.config.t_mem <= usize::MAX,
                all == (if done {
                    s@
                } else {
                    self.generations_run(s@, det, draws@, g as nat, observe)
                }),
            decreases g_max - g + (if done {
                0int
            } else {
                1
            }),
        {
            proof {
                let t = self.config.t_mem as int;
                assert((g + 1) * t == g * t + t) by (nonlinear_arith);
                assert((g + 1) * t <= g_max * t) by (nonlinear_arith)
                    requires
                        g + 1 <= g_max,
                        t >= 0,
                ;
            }
            s = self.run_generation(s, detectors, g, &draws[g], observe);
            done = self.should_stop_after_success_count(s.collected.len());
            g += 1;
        }
        s
    }
}

} // verus!
