//! Rounds of biased relay: a constant leg from biased priors and relay legs after it.

use vstd::prelude::*;

use super::adapt::{drawn_memory, mask_of, MemberDraws, SLGMBPDecoder};
use super::evaluate::FITNESS_LIMIT;
use super::ga_ops::{all_fit, build_next_generation, members_of, MemberModel, PopulationMember};
use super::phase::{PhaseModel, PhaseOutcome};
use super::search::{GenerationDraws, SearchModel, SlgSearch};
use super::solutions::{cost, solutions_of, CollectedSolution, SolutionModel};
use super::trace::is_score;
use crate::matrix::Bit;

verus! {

/// The legs of one member in one round.
#[verifier::ext_equal]
pub struct MemberRunModel {
    /// How the last leg ended.
    pub phase: PhaseModel,
    /// The iterations of all legs.
    pub iterations: nat,
    /// The iterations of the longest leg.
    pub longest: nat,
    /// Whether the constant leg explained the detectors.
    pub constant: bool,
    /// Whether a relay leg did.
    pub converged: bool,
}

/// What is known of a round while its members are decoded.
#[verifier::ext_equal]
pub struct RoundModel {
    pub search: SearchModel,
    pub next: Seq<MemberModel>,
    pub best: int,
    pub scored: bool,
    pub iterations: nat,
    pub longest: nat,
    pub found: Seq<SolutionModel>,
    pub stopped: bool,
}

impl SLGMBPDecoder {
    /// The relay legs of a member from leg `l` on, after legs that ended as `r` says. Each
    /// leg draws new memory strengths and starts from the posteriors of the last.
    pub open spec fn relay_legs(
        self,
        det: Seq<Bit>,
        member: MemberModel,
        threshold: int,
        draws: MemberDraws,
        r: MemberRunModel,
        l: nat,
    ) -> MemberRunModel
        decreases self.config.biased_relay_r_relay - l,
    {
        if l >= self.config.biased_relay_r_relay || r.converged {
            r
        } else {
            let leg = draws.legs[l as int + 1];
            let prior = self.leg_prior(member);
            let start = self.biased_start(
                prior,
                r.phase.posterior,
                member.mask,
                threshold,
                false,
                leg.marginal,
            );
            let p = self.mem_bp_phase(
                det,
                leg.coins@,
                prior,
                start,
                drawn_memory(self.cols(), leg),
                self.config.biased_relay_r_relay_iter,
                self.config.enable_variable_message_drop,
            );
            self.relay_legs(
                det,
                member,
                threshold,
                draws,
                MemberRunModel {
                    phase: p,
                    iterations: r.iterations + p.iterations,
                    longest: if p.iterations > r.longest {
                        p.iterations
                    } else {
                        r.longest
                    },
                    constant: false,
                    converged: p.success,
                },
                l + 1,
            )
        }
    }

    /// The constant leg of a member that entered the round.
    pub open spec fn constant_leg(
        self,
        det: Seq<Bit>,
        member: MemberModel,
        threshold: int,
        draws: MemberDraws,
    ) -> PhaseModel {
        let leg = draws.legs[0];
        let prior = self.leg_prior(member);
        self.mem_bp_phase(
            det,
            leg.coins@,
            prior,
            self.biased_start(
                prior,
                member.posterior,
                member.mask,
                threshold,
                self.config.reset_marginal,
                leg.marginal,
            ),
            self.constant_gamma(),
            self.config.biased_relay_t_0,
            self.config.enable_variable_message_drop,
        )
    }

    /// All legs of a member that entered the round: relay legs follow where the constant
    /// leg does not explain the detectors.
    pub open spec fn member_run(
        self,
        det: Seq<Bit>,
        member: MemberModel,
        threshold: int,
        draws: MemberDraws,
    ) -> MemberRunModel {
        let p = self.constant_leg(det, member, threshold, draws);
        let first = MemberRunModel {
            phase: p,
            iterations: p.iterations,
            longest: p.iterations,
            constant: p.success,
            converged: false,
        };
        if p.success {
            first
        } else {
            self.relay_legs(det, member, threshold, draws, first, 0)
        }
    }

    /// The round after one member. In the first round every member is scored and stays; in
    /// later ones a member whose constant leg explains the detectors is only collected.
    pub open spec fn round_step(
        self,
        round: RoundModel,
        det: Seq<Bit>,
        child: MemberModel,
        draws: MemberDraws,
        first: bool,
    ) -> RoundModel {
        let s = round.search;
        let member = self.readied(self.first_prior(), child, s.threshold, draws);
        let run = self.member_run(det, member, s.threshold, draws);
        let p = run.phase;
        let score = self.score(det, p);
        let counts = first || !run.constant;
        let stopped = run.converged && !self.post_selects();
        let better = s.improved(p, score);
        RoundModel {
            search: SearchModel {
                residuals: if counts {
                    s.residuals.push(self.unexplained_by(det, p.decoding) as usize)
                } else {
                    s.residuals
                },
                ..better
            },
            next: if first {
                round.next.push(
                    MemberModel { posterior: p.posterior, fitness: score, ..member },
                )
            } else if run.constant || stopped {
                round.next
            } else {
                round.next.push(
                    MemberModel {
                        posterior: p.posterior,
                        fitness: score,
                        adjacent: Seq::empty(),
                        ..member
                    },
                )
            },
            best: if counts && score > round.best {
                score
            } else {
                round.best
            },
            scored: round.scored || counts,
            iterations: round.iterations + run.iterations,
            longest: if run.longest > round.longest {
                run.longest
            } else {
                round.longest
            },
            found: if run.constant || run.converged {
                round.found.push(
                    SolutionModel {
                        discovery: s.total + run.iterations,
                        cost: cost(p.decoding, self.first_prior()),
                        decoding: p.decoding,
                        posterior: p.posterior,
                    },
                )
            } else {
                round.found
            },
            stopped,
        }
    }

    /// The round after its members from `k` on.
    pub open spec fn round_run(
        self,
        round: RoundModel,
        det: Seq<Bit>,
        children: Seq<MemberModel>,
        draws: Seq<MemberDraws>,
        k: nat,
        first: bool,
    ) -> RoundModel
        decreases children.len() - k,
    {
        if k >= children.len() || round.stopped {
            round
        } else {
            self.round_run(
                self.round_step(round, det, children[k as int], draws[k as int], first),
                det,
                children,
                draws,
                k + 1,
                first,
            )
        }
    }

    /// A round before its first member.
    pub open spec fn first_round(self, s: SearchModel) -> RoundModel {
        RoundModel {
            search: s,
            next: Seq::empty(),
            best: i128::MIN as int,
            scored: false,
            iterations: 0,
            longest: 0,
            found: Seq::empty(),
            stopped: false,
        }
    }

    /// The search after a round. The threshold stays as it is after the first.
    pub open spec fn round_closed(self, round: RoundModel, first: bool) -> SearchModel {
        let s = round.search;
        let collected = s.collected + round.found;
        let done = collected.len() >= self.wanted();
        let t = SearchModel {
            collected,
            total: s.total + round.iterations,
            gammas: s.gammas.push(
                if first || round.scored {
                    self.config.init_gamma
                } else {
                    0i64
                },
            ),
            scores: if done && first {
                s.scores
            } else {
                s.scores.push(round.best as i128)
            },
            ..s
        };
        if done {
            t
        } else {
            SearchModel {
                members: round.next,
                threshold: if first {
                    s.threshold
                } else {
                    self.next_threshold(s.threshold, round.longest)
                },
                ..t
            }
        }
    }

    /// The search after round `r`, counted from zero. The first round decodes the members
    /// of the search, each later one a new generation of them.
    pub open spec fn round(
        self,
        s: SearchModel,
        det: Seq<Bit>,
        r: nat,
        draws: GenerationDraws,
    ) -> SearchModel {
        let children = if r == 0 {
            s.members
        } else {
            self.config.next_generation(s.members, draws.children@)
        };
        self.round_closed(
            self.round_run(self.first_round(s), det, children, draws.members@, 0, r == 0),
            r == 0,
        )
    }

    /// The search after the rounds from `r` on, or after enough solutions.
    pub open spec fn rounds_run(
        self,
        s: SearchModel,
        det: Seq<Bit>,
        draws: Seq<GenerationDraws>,
        r: nat,
    ) -> SearchModel
        decreases self.config.rounds() - r,
    {
        if r >= self.config.rounds() {
            s
        } else {
            let n = self.round(s, det, r, draws[r as int]);
            if n.collected.len() >= self.wanted() {
                n
            } else {
                self.rounds_run(n, det, draws, r + 1)
            }
        }
    }

    /// What every step of a round keeps, after `k` members.
    pub open spec fn round_sound(self, round: RoundModel, det: Seq<Bit>, k: nat) -> bool {
        &&& self.sound(round.search, det)
        &&& all_fit(round.next, self.cols())
        &&& round.next.len() <= k
        &&& self.all_solve(det, round.found)
        &&& round.best == i128::MIN || -FITNESS_LIMIT < round.best < FITNESS_LIMIT
        &&& round.iterations <= k * self.config.round_limit()
        &&& round.longest <= self.config.round_limit()
    }
}

/// The legs of one member as they were run.
#[derive(Clone, Debug)]
pub struct MemberRun {
    pub phase: PhaseOutcome,
    pub iterations: usize,
    pub longest: usize,
    pub constant: bool,
    pub converged: bool,
}

impl View for MemberRun {
    type V = MemberRunModel;

    open spec fn view(&self) -> MemberRunModel {
        MemberRunModel {
            phase: self.phase@,
            iterations: self.iterations as nat,
            longest: self.longest as nat,
            constant: self.constant,
            converged: self.converged,
        }
    }
}

/// A round while its members are decoded.
#[derive(Clone, Debug)]
pub struct SlgRound {
    pub search: SlgSearch,
    pub next: Vec<PopulationMember>,
    pub best: i128,
    pub scored: bool,
    pub iterations: usize,
    pub longest: usize,
    pub found: Vec<CollectedSolution>,
    pub stopped: bool,
}

impl View for SlgRound {
    type V = RoundModel;

    open spec fn view(&self) -> RoundModel {
        RoundModel {
            search: self.search@,
            next: members_of(self.next@),
            best: self.best as int,
            scored: self.scored,
            iterations: self.iterations as nat,
            longest: self.longest as nat,
            found: solutions_of(self.found@),
            stopped: self.stopped,
        }
    }
}

impl SLGMBPDecoder {
    /// The legs of a member that entered the round with the priors `prior`.
    pub fn run_member(
        &self,
        detectors: &Vec<Bit>,
        member: &PopulationMember,
        prior: &Vec<i64>,
        threshold: i64,
        draws: &MemberDraws,
    ) -> (r: MemberRun)
        requires
            self.wf(),
            self.config.biased_relay_mode,
            member@.wf(self.cols()),
            prior@ == self.leg_prior(member@),
            self.fits(prior@),
            threshold >= 0,
            draws.legs.len() >= self.leg_count(),
            detectors.len() == self.check_matrix@.rows,
        ensures
            r@ == self.member_run(detectors@, member@, threshold as int, *draws),
            self.phase_fits(r.phase@, r.iterations as nat),
            r.iterations <= self.config.round_limit(),
            r.longest <= r.iterations,
            r.constant || r.converged ==> self.check_matrix@.mul_mod2(r.phase.decoding@)
                == detectors@,
    {
        let ghost det = detectors@;
        let r_relay: usize = self.config.biased_relay_r_relay;
        let r_iter: usize = self.config.biased_relay_r_relay_iter;
        let t_0: usize = self.config.biased_relay_t_0;
        let drop: bool = self.config.enable_variable_message_drop;
        let mask: Option<&Vec<bool>> = match &member.adaptive_target_mask {
            Some(b) => Some(b),
            None => None,
        };
        assert(mask_of(mask) == member@.mask);
        assert(0 <= r_relay * r_iter) by (nonlinear_arith);
        let gamma: Vec<i64> = self.constant_memory();
        let start: Vec<i64> = self.build_adaptive_initial_marginal(
            prior,
            &member.posterior,
            mask,
            threshold,
            self.config.reset_marginal,
            &draws.legs[0].marginal,
        );
        let p = self.run_mem_bp_phase(
            detectors,
            &draws.legs[0].coins,
            prior,
            &start,
            &gamma,
            t_0,
            drop,
        );
        let iterations: usize = p.iterations;
        let constant: bool = p.success;
        let mut run = MemberRun {
            phase: p,
            iterations,
            longest: iterations,
            constant,
            converged: false,
        };
        if constant {
            return run;
        }
        let ghost all = self.relay_legs(det, member@, threshold as int, *draws, run@, 0);
        let mut l: usize = 0;
        while l < r_relay && !run.converged
            invariant
                self.wf(),
                self.config.biased_relay_mode,
                det == detectors@,
                detectors.len() == self.check_matrix@.rows,
                r_relay == self.config.biased_relay_r_relay,
                r_iter == self.config.biased_relay_r_relay_iter,
                t_0 == self.config.biased_relay_t_0,
                drop == self.config.enable_variable_message_drop,
                member@.wf(self.cols()),
                mask_of(mask) == member@.mask,
                prior@ == self.leg_prior(member@),
                self.fits(prior@),
                threshold >= 0,
                draws.legs.len() >= self.leg_count(),
                l <= r_relay,
                run.iterations <= t_0 + l * r_iter,
                run.longest <= run.iterations,
                self.phase_fits(run.phase@, run.iterations as nat),
                !run.constant,
                run.converged ==> self.check_matrix@.mul_mod2(run.phase.decoding@) == det,
                all == self.relay_legs(det, member@, threshold as int, *draws, run@, l as nat),
            decreases r_relay - l,
        {
            let leg_idx: usize = l + 1;
            let start: Vec<i64> = self.build_adaptive_initial_marginal(
                prior,
                &run.phase.posterior,
                mask,
                threshold,
                false,
                &draws.legs[leg_idx].marginal,
            );
            let gamma: Vec<i64> = self.sample_relay_gamma(
                self.check_matrix.cols,
                &draws.legs[leg_idx],
            );
            let p = self.run_mem_bp_phase(
                detectors,
                &draws.legs[leg_idx].coins,
                prior,
                &start,
                &gamma,
                r_iter,
                drop,
            );
            proof {
                assert((l + 1) * r_iter == l * r_iter + r_iter) by (nonlinear_arith);
                assert((l + 1) * r_iter <= r_relay * r_iter) by (nonlinear_arith)
                    requires
                        l + 1 <= r_relay,
                        r_iter >= 0,
                ;
            }
            let iterations: usize = run.iterations + p.iterations;
            let longest: usize = if p.iterations > run.longest {
                p.iterations
            } else {
                run.longest
            };
            let converged: bool = p.success;
            run = MemberRun { phase: p, iterations, longest, constant: false, converged };
            l += 1;
        }
        proof {
            assert(l * r_iter <= r_relay * r_iter) by (nonlinear_arith)
                requires
                    l <= r_relay,
                    r_iter >= 0,
            ;
        }
        run
    }

    /// Decodes one member of a round.
    fn run_round_member(
        &self,
        round: &mut SlgRound,
        detectors: &Vec<Bit>,
        base: &Vec<i64>,
        child: PopulationMember,
        draws: &MemberDraws,
        first: bool,
        Ghost(k): Ghost<nat>,
    )
        requires
            self.wf(),
            self.config.biased_relay_mode,
            base@ == self.first_prior(),
            self.fits(base@),
            k < self.config.ensemble_size,
            self.round_sound(old(round)@, detectors@, k),
            old(round)@.search.total + self.config.round_limit() <= usize::MAX,
            self.config.ensemble_size * self.config.round_limit() <= usize::MAX,
            child@.wf(self.cols()),
            draws.legs.len() >= self.leg_count(),
            detectors.len() == self.check_matrix@.rows,
        ensures
            final(round)@ == self.round_step(old(round)@, detectors@, child@, *draws, first),
            self.round_sound(final(round)@, detectors@, k + 1),
            final(round)@.search.total == old(round)@.search.total,
    {
        let ghost det = detectors@;
        let ghost start = round@;
        let ghost expected = self.round_step(start, det, child@, *draws, first);
        let ghost limit = self.config.round_limit();
        let mut member = child;
        let threshold: i64 = round.search.threshold;
        let prior: Vec<i64> = self.build_generation_phase_prior(base, &mut member, threshold, draws);
        let ghost readied = member@;
        let run = self.run_member(detectors, &member, &prior, threshold, draws);
        let MemberRun { phase: p, iterations, longest, constant, converged } = run;
        let (residual_w, score) = self.assess(detectors, &p);
        self.improve(&mut round.search, &p, score);
        let counts: bool = first || !constant;
        if counts {
            round.search.residual_weight_history.push(residual_w);
            round.scored = true;
            if score > round.best {
                round.best = score;
            }
        }
        assert(round.search@ =~= expected.search);
        proof {
            assert((k + 1) * limit == k * limit + limit) by (nonlinear_arith);
            assert((k + 1) * limit <= self.config.ensemble_size * limit) by (nonlinear_arith)
                requires
                    k + 1 <= self.config.ensemble_size,
                    limit >= 0,
            ;
        }
        round.iterations = round.iterations + iterations;
        if longest > round.longest {
            round.longest = longest;
        }
        if constant || converged {
            let discovery: usize = round.search.total_iterations + iterations;
            self.collect_solution(
                &mut round.found,
                discovery,
                &p.decoding,
                &p.posterior,
                base,
            );
            proof {
                assert(round@.found.last() == round.found@.last()@);
                assert(self.solves(det, round@.found.last()));
                assert forall|i: int| 0 <= i < round@.found.len() implies self.solves(
                    det,
                    #[trigger] round@.found[i],
                ) by {
                    if i < start.found.len() {
                        assert(round@.found[i] == start.found[i]);
                    }
                }
            }
        }
        let stops: bool = converged && self.should_early_break_on_single_iter_success();
        round.stopped = stops;
        if first || !(constant || stops) {
            let adjacent: Vec<usize> = if first {
                member.residual_adjacent_variable_indices
            } else {
                Vec::new()
            };
            let kept = PopulationMember {
                posterior: p.posterior,
                fitness: score,
                perturbation_state: member.perturbation_state,
                residual_adjacent_variable_indices: adjacent,
                adaptive_prior: member.adaptive_prior,
                adaptive_target_mask: member.adaptive_target_mask,
            };
            let ghost old_next = round.next@;
            round.next.push(kept);
            proof {
                assert(members_of(round.next@) =~= members_of(old_next).push(kept@));
                assert(kept@.wf(self.cols()));
                if !first {
                    assert(adjacent@ =~= Seq::empty());
                }
                assert forall|i: int| 0 <= i < round@.next.len() implies (
                #[trigger] round@.next[i]).wf(self.cols()) by {
                    if i < start.next.len() {
                        assert(round@.next[i] == start.next[i]);
                    }
                }
            }
        }
        assert(round@.next =~= expected.next);
        assert(round@.found =~= expected.found);
        assert(round@ =~= expected);
    }

    /// Ends a round.
    fn close_round(&self, round: SlgRound, first: bool) -> (r: SlgSearch)
        requires
            self.wf(),
            0 <= round@.search.threshold,
            round@.search.total + round@.iterations <= usize::MAX,
        ensures
            r@ == self.round_closed(round@, first),
    {
        let ghost expected = self.round_closed(round@, first);
        let SlgRound { search, next, best, scored, iterations, longest, found, stopped: _ } = round;
        let mut s: SlgSearch = search;
        let mut found: Vec<CollectedSolution> = found;
        let ghost old_collected = s.collected@;
        let ghost given = found@;
        s.collected.append(&mut found);
        assert(solutions_of(s.collected@) =~= solutions_of(old_collected) + solutions_of(given));
        s.total_iterations = s.total_iterations + iterations;
        let gamma: i64 = if first || scored {
            self.config.init_gamma
        } else {
            0
        };
        s.gamma_history.push(gamma);
        let done: bool = self.should_stop_after_success_count(s.collected.len());
        if !(done && first) {
            s.generation_best_fitness.push(best);
        }
        if !done {
            s.members = next;
            if !first {
                s.threshold = self.next_adaptive_perturbation_llr_threshold(s.threshold, longest);
            }
        }
        assert(s@ =~= expected);
        s
    }

    /// Runs one round.
    pub fn run_round(
        &self,
        s: SlgSearch,
        detectors: &Vec<Bit>,
        round_idx: usize,
        draws: &GenerationDraws,
    ) -> (r: SlgSearch)
        requires
            self.wf(),
            self.config.biased_relay_mode,
            self.sound(s@, detectors@),
            s@.total + self.config.ensemble_size * self.config.round_limit()
                + self.config.round_limit() <= usize::MAX,
            self.generation_supplied(*draws),
            detectors.len() == self.check_matrix@.rows,
        ensures
            r@ == self.round(s@, detectors@, round_idx as nat, *draws),
            self.sound(r@, detectors@),
            r@.total <= s@.total + self.config.ensemble_size * self.config.round_limit(),
    {
        let ghost det = detectors@;
        let ghost start = s@;
        let ghost limit = self.config.round_limit();
        let first: bool = round_idx == 0;
        let base: Vec<i64> = self.initial_phase_prior_llr();
        proof {
            if start.members.len() > 0 {
                assert(start.members[0].wf(self.cols()));
            }
            assert(0 <= self.config.biased_relay_r_relay * self.config.biased_relay_r_relay_iter)
                by (nonlinear_arith);
            assert(0 <= self.config.ensemble_size * limit) by (nonlinear_arith)
                requires
                    limit >= 0,
            ;
        }
        let mut s: SlgSearch = s;
        let children: Vec<PopulationMember> = if first {
            clone_members(&s.members)
        } else {
            build_next_generation(&s.members, &self.config, &draws.children)
        };
        let ghost kids = members_of(children@);
        let mut round = SlgRound {
            search: s,
            next: Vec::new(),
            best: i128::MIN,
            scored: false,
            iterations: 0,
            longest: 0,
            found: Vec::new(),
            stopped: false,
        };
        proof {
            let f = self.first_round(start);
            assert(round@.next =~= f.next);
            assert(round@.found =~= f.found);
            assert(round@ =~= f);
        }
        let ghost all = self.round_run(round@, det, kids, draws.members@, 0, first);
        let mut k: usize = 0;
        while k < children.len() && !round.stopped
            invariant
                self.wf(),
                self.config.biased_relay_mode,
                det == detectors@,
                detectors.len() == self.check_matrix@.rows,
                base@ == self.first_prior(),
                self.fits(base@),
                limit == self.config.round_limit(),
                self.round_sound(round@, det, k as nat),
                round@.search.total == start.total,
                start.total + self.config.ensemble_size * limit + limit <= usize::MAX,
                0 <= limit,
                0 <= self.config.ensemble_size * limit,
                self.generation_supplied(*draws),
                kids == members_of(children@),
                all_fit(kids, self.cols()),
                kids.len() <= self.config.ensemble_size,
                k <= children.len(),
                all == self.round_run(round@, det, kids, draws.members@, k as nat, first),
            decreases children.len() - k,
        {
            let child: PopulationMember = children[k].clone();
            assert(kids[k as int] == child@);
            assert(draws.members[k as int].legs.len() >= self.leg_count());
            self.run_round_member(
                &mut round,
                detectors,
                &base,
                child,
                &draws.members[k],
                first,
                Ghost(k as nat),
            );
            k += 1;
        }
        assert(round@ == all);
        let ghost end = round@;
        proof {
            assert(k * limit <= self.config.ensemble_size * limit) by (nonlinear_arith)
                requires
                    k <= self.config.ensemble_size,
                    limit >= 0,
            ;
        }
        let r = self.close_round(round, first);
        proof {
            assert forall|g: int| 0 <= g < r@.scores.len() implies is_score(
                #[trigger] r@.scores[g],
            ) by {
                if g < end.search.scores.len() {
                    assert(r@.scores[g] == end.search.scores[g]);
                }
            }
            assert forall|i: int| 0 <= i < r@.collected.len() implies self.solves(
                det,
                #[trigger] r@.collected[i],
            ) by {
                if i < end.search.collected.len() {
                    assert(r@.collected[i] == end.search.collected[i]);
                } else {
                    assert(r@.collected[i] == end.found[i - end.search.collected.len()]);
                }
            }
        }
        r
    }

    /// Runs rounds of biased relay until there are enough solutions.
    pub fn run_biased_relay(&self, s: SlgSearch, detectors: &Vec<Bit>, draws: &Vec<GenerationDraws>) -> (r:
        SlgSearch)
        requires
            self.wf(),
            self.config.biased_relay_mode,
            self.sound(s@, detectors@),
            s@.total <= self.config.t_ms + self.config.biased_relay_t_0,
            draws.len() >= self.config.rounds(),
            forall|g: int|
                0 <= g < draws.len() ==> self.generation_supplied(#[trigger] draws[g]),
            detectors.len() == self.check_matrix@.rows,
        ensures
            r@ == self.rounds_run(s@, detectors@, draws@, 0),
            self.sound(r@, detectors@),
    {
        let ghost det = detectors@;
        let ghost all = self.rounds_run(s@, det, draws@, 0);
        let ghost base = s@.total;
        let ghost cost = self.config.ensemble_size * self.config.round_limit();
        let rounds: usize = if self.config.biased_relay_maximum_round < 1 {
            1
        } else {
            self.config.biased_relay_maximum_round
        };
        proof {
            let limit = self.config.round_limit();
            assert(0 <= self.config.biased_relay_r_relay * self.config.biased_relay_r_relay_iter)
                by (nonlinear_arith);
            assert(0 <= self.config.ensemble_size * limit) by (nonlinear_arith)
                requires
                    limit >= 0,
            ;
        }
        let mut s: SlgSearch = s;
        let mut done: bool = false;
        let mut g: usize = 0;
        while g < rounds && !done
            invariant
                self.wf(),
                self.config.biased_relay_mode,
                rounds == self.config.rounds(),
                det == detectors@,
                detectors.len() == self.check_matrix@.rows,
                draws.len() >= rounds,
                forall|i: int|
                    0 <= i < draws.len() ==> self.generation_supplied(#[trigger] draws[i]),
                g <= rounds,
                self.sound(s@, det),
                cost == self.config.ensemble_size * self.config.round_limit(),
                cost >= 0,
                base <= self.config.t_ms + self.config.biased_relay_t_0,
                s@.total <= base + g * cost,
                all == (if done {
                    s@
                } else {
                    self.rounds_run(s@, det, draws@, g as nat)
                }),
            decreases rounds - g + (if done {
                0int
            } else {
                1
            }),
        {
            proof {
                assert((g + 1) * cost == g * cost + cost) by (nonlinear_arith);
                assert((g + 1) * cost <= rounds * cost) by (nonlinear_arith)
                    requires
                        g + 1 <= rounds,
                        cost >= 0,
                ;
            }
            s = self.run_round(s, detectors, g, &draws[g]);
            done = self.should_stop_after_success_count(s.collected.len());
            g += 1;
        }
        s
    }
}

/// Copies of all members.
fn clone_members(members: &Vec<PopulationMember>) -> (r: Vec<PopulationMember>)
    ensures
        members_of(r@) == members_of(members@),
        r.len() == members.len(),
{
    let mut out: Vec<PopulationMember> = Vec::new();
    let mut i: usize = 0;
    while i < members.len()
        invariant
            i <= members.len(),
            out.len() == i,
            forall|j: int| 0 <= j < i ==> (#[trigger] out[j])@ == members[j]@,
        decreases members.len() - i,
    {
        out.push(members[i].clone());
        i += 1;
    }
    assert(members_of(out@) =~= members_of(members@));
    out
}

} // verus!
