//! Selection, recombination and mutation.

use vstd::prelude::*;

use super::config::{
    PerturbationMethod, SLGMBPDecoderConfig, SelectionMode, WeightedSelectionMode,
};
use super::evaluate::are_ratios;
use super::init_population::{PerturbationModel, PerturbationState};
use crate::arith::{abs, magnitude};
use crate::order::{add_member, order, sorted_indices, sorted_set, with_member, Key};

verus! {

/// A member of a population.
#[derive(Debug)]
pub struct PopulationMember {
    /// The posterior of each variable.
    pub posterior: Vec<i64>,
    /// The score.
    pub fitness: i128,
    /// The perturbation of the priors.
    pub perturbation_state: PerturbationState,
    /// The variables next to checks that are not explained.
    pub residual_adjacent_variable_indices: Vec<usize>,
    /// The biased priors, once there are any.
    pub adaptive_prior: Option<Vec<i64>>,
    /// The variables to be biased, once they are fixed.
    pub adaptive_target_mask: Option<Vec<bool>>,
}

/// What a member holds.
#[verifier::ext_equal]
pub struct MemberModel {
    pub posterior: Seq<i64>,
    pub fitness: int,
    pub perturbation: PerturbationModel,
    pub adjacent: Seq<usize>,
    pub adaptive_prior: Option<Seq<i64>>,
    pub mask: Option<Seq<bool>>,
}

impl View for PopulationMember {
    type V = MemberModel;

    open spec fn view(&self) -> MemberModel {
        MemberModel {
            posterior: self.posterior@,
            fitness: self.fitness as int,
            perturbation: self.perturbation_state@,
            adjacent: self.residual_adjacent_variable_indices@,
            adaptive_prior: match self.adaptive_prior {
                Some(p) => Some(p@),
                None => None,
            },
            mask: match self.adaptive_target_mask {
                Some(m) => Some(m@),
                None => None,
            },
        }
    }
}

impl Clone for PopulationMember {
    fn clone(&self) -> (r: Self)
        ensures
            r@ == self@,
    {
        let adaptive_prior: Option<Vec<i64>> = match &self.adaptive_prior {
            Some(p) => Some(p.clone()),
            None => None,
        };
        let adaptive_target_mask: Option<Vec<bool>> = match &self.adaptive_target_mask {
            Some(m) => Some(m.clone()),
            None => None,
        };
        let r = PopulationMember {
            posterior: self.posterior.clone(),
            fitness: self.fitness,
            perturbation_state: self.perturbation_state.clone(),
            residual_adjacent_variable_indices: self.residual_adjacent_variable_indices.clone(),
            adaptive_prior,
            adaptive_target_mask,
        };
        assert(r@ =~= self@);
        r
    }
}

impl MemberModel {
    /// The parts fit a code with `cols` variables.
    pub open spec fn wf(self, cols: nat) -> bool {
        &&& self.posterior.len() == cols
        &&& are_ratios(self.posterior)
        &&& i128::MIN < self.fitness <= i128::MAX
        &&& self.adaptive_prior matches Some(p) ==> p.len() == cols && are_ratios(p)
    }
}

/// What the members of a list hold.
pub open spec fn members_of(s: Seq<PopulationMember>) -> Seq<MemberModel> {
    Seq::new(s.len(), |i: int| s[i]@)
}

/// All members fit a code with `cols` variables.
pub open spec fn all_fit(pop: Seq<MemberModel>, cols: nat) -> bool {
    forall|i: int| 0 <= i < pop.len() ==> (#[trigger] pop[i]).wf(cols)
}

/// The number of variables of a population.
pub open spec fn width(pop: Seq<MemberModel>) -> nat {
    if pop.len() == 0 {
        0
    } else {
        pop[0].posterior.len()
    }
}

/// What was drawn for the choice of one parent.
#[derive(Clone, Debug)]
pub struct ParentDraw {
    /// The entrants of a tournament, counted round the population.
    pub entrants: Vec<usize>,
    /// A fraction in units of the 64th negative power of two.
    pub ticket: u64,
}

/// What was drawn for one child.
#[derive(Clone, Debug)]
pub struct ChildDraws {
    pub first: ParentDraw,
    pub second: ParentDraw,
    /// The variables taken from the first parent.
    pub from_first: Vec<bool>,
    /// The variables that mutate if they are uncertain.
    pub mutates: Vec<bool>,
    /// Whether the perturbation comes from the first parent.
    pub state_from_first: bool,
}

/// Whether coin `v` was thrown and fell on its head.
pub open spec fn coin(coins: Seq<bool>, v: int) -> bool {
    0 <= v < coins.len() && coins[v]
}

/// Throws of coins that were made before.
pub fn coin_at(coins: &Vec<bool>, v: usize) -> (r: bool)
    ensures
        r == coin(coins@, v as int),
{
    v < coins.len() && coins[v]
}

/// The key by which better scores come first.
pub open spec fn rank_keys(pop: Seq<MemberModel>) -> Seq<Key> {
    Seq::new(pop.len(), |i: int| ((-1 - pop[i].fitness) as i128, 0i128))
}

/// The members from the best score to the worst; equal scores keep their order.
pub open spec fn ranked(pop: Seq<MemberModel>) -> Seq<usize> {
    order(rank_keys(pop))
}

/// The entrant of place `k`.
pub open spec fn entrant(entrants: Seq<usize>, m: nat, k: int) -> int {
    entrants[k] as int % m as int
}

/// The first of the best among the first `n` entrants.
pub open spec fn winner(pop: Seq<MemberModel>, entrants: Seq<usize>, n: int) -> int
    decreases n,
{
    if n <= 1 {
        entrant(entrants, pop.len(), 0)
    } else {
        let w = winner(pop, entrants, n - 1);
        let e = entrant(entrants, pop.len(), n - 1);
        if pop[e].fitness > pop[w].fitness {
            e
        } else {
            w
        }
    }
}

/// The sum of the first `n` weights.
pub open spec fn weight_below(weights: Seq<u64>, n: int) -> nat
    decreases n,
{
    if n <= 0 {
        0
    } else {
        weight_below(weights, n - 1) + weights[n - 1] as nat
    }
}

/// The first place from `pos` on up to which the weights reach the fraction `ticket` of
/// their sum.
pub open spec fn reached_from(weights: Seq<u64>, ticket: u64, pos: int) -> int
    decreases weights.len() - pos,
{
    if pos + 1 >= weights.len() {
        weights.len() - 1
    } else if weight_below(weights, pos + 1) * 0x1_0000_0000_0000_0000 >= ticket * weight_below(
        weights,
        weights.len() as int,
    ) {
        pos
    } else {
        reached_from(weights, ticket, pos + 1)
    }
}

/// The place that `ticket` draws, each with a chance in proportion to its weight.
pub open spec fn drawn(weights: Seq<u64>, ticket: u64) -> int {
    reached_from(weights, ticket, 0)
}

/// The best score of the first `n` members.
pub open spec fn best_below(pop: Seq<MemberModel>, n: int) -> int
    decreases n,
{
    if n <= 1 {
        pop[0].fitness
    } else if pop[n - 1].fitness > best_below(pop, n - 1) {
        pop[n - 1].fitness
    } else {
        best_below(pop, n - 1)
    }
}

impl SLGMBPDecoderConfig {
    /// The weight of a score `gap` below the best.
    pub open spec fn softmax_weight(self, gap: int) -> u64 {
        let k = gap / self.softmax_step as int;
        if k < self.softmax_weights.len() {
            self.softmax_weights[k]
        } else {
            self.softmax_weights[self.softmax_weights.len() - 1]
        }
    }

    /// The weight of each member by its distance from the best score.
    pub open spec fn softmax_of(self, pop: Seq<MemberModel>) -> Seq<u64> {
        Seq::new(
            pop.len(),
            |i: int| self.softmax_weight(best_below(pop, pop.len() as int) - pop[i].fitness),
        )
    }

    /// The number of entrants of a tournament.
    pub open spec fn tournament(self) -> int {
        if self.tournament_size < 2 {
            2
        } else {
            self.tournament_size as int
        }
    }

    /// The parent that `draw` chooses.
    pub open spec fn parent(self, pop: Seq<MemberModel>, draw: ParentDraw) -> int {
        match self.selection_mode {
            SelectionMode::Tournament => winner(pop, draw.entrants@, self.tournament()),
            SelectionMode::Weighted => match self.weighted_selection_mode {
                WeightedSelectionMode::Softmax => drawn(self.softmax_of(pop), draw.ticket),
                WeightedSelectionMode::Rank => ranked(pop)[drawn(
                    rank_weights(pop.len()),
                    draw.ticket,
                )] as int,
            },
        }
    }

    /// Parents can be chosen by `draw`.
    pub open spec fn can_choose(self, draw: ParentDraw) -> bool {
        self.selection_mode == SelectionMode::Tournament ==> draw.entrants.len()
            >= self.tournament()
    }

    /// The posterior of a child: each variable from one of its parents, with its sign
    /// turned where it is uncertain and mutates.
    pub open spec fn crossed(self, a: Seq<i64>, b: Seq<i64>, draws: ChildDraws) -> Seq<i64> {
        Seq::new(
            a.len(),
            |v: int|
                {
                    let x = if coin(draws.from_first@, v) {
                        a[v]
                    } else {
                        b[v]
                    };
                    if abs(x as int) < self.mutation_llr_abs_threshold && coin(draws.mutates@, v) {
                        (-x) as i64
                    } else {
                        x
                    }
                },
        )
    }

    /// The child of two parents.
    pub open spec fn child(self, a: MemberModel, b: MemberModel, draws: ChildDraws) -> MemberModel {
        MemberModel {
            posterior: self.crossed(a.posterior, b.posterior, draws),
            fitness: 0,
            perturbation: match self.perturbation_method {
                PerturbationMethod::Fixed => if draws.state_from_first {
                    a.perturbation
                } else {
                    b.perturbation
                },
                PerturbationMethod::Resample => PerturbationModel::Unperturbed,
            },
            adjacent: sorted_set(a.adjacent + b.adjacent),
            adaptive_prior: None,
            mask: None,
        }
    }

    /// The number of members whose copies make up a generation.
    pub open spec fn source_count(self, m: nat) -> int {
        if self.elite_count < 1 {
            1
        } else if self.elite_count > m {
            m as int
        } else {
            self.elite_count as int
        }
    }

    /// The rank of the member that copy `k` of `m` is made of: one copy of each member of
    /// the elite first, then the rest shared out evenly, the better ones first.
    pub open spec fn source(self, m: nat, k: int) -> int {
        let e = self.source_count(m);
        if k < e {
            k
        } else {
            let base = (m - e) / e;
            let extra = (m - e) % e;
            let j = k - e;
            if j < extra * (base + 1) {
                j / (base + 1)
            } else {
                extra + (j - extra * (base + 1)) / base
            }
        }
    }

    /// The next generation.
    pub open spec fn next_generation(
        self,
        pop: Seq<MemberModel>,
        draws: Seq<ChildDraws>,
    ) -> Seq<MemberModel> {
        let r = ranked(pop);
        if self.sequential_mc {
            Seq::new(
                pop.len(),
                |k: int| copied(pop[r[self.source(pop.len(), k)] as int]),
            )
        } else {
            Seq::new(
                pop.len(),
                |k: int|
                    if k < self.elite_count {
                        pop[r[k] as int]
                    } else {
                        self.child(
                            pop[self.parent(pop, draws[k].first)],
                            pop[self.parent(pop, draws[k].second)],
                            draws[k],
                        )
                    },
            )
        }
    }

    /// What was drawn suffices for a generation of `m` members.
    pub open spec fn can_breed(self, m: nat, draws: Seq<ChildDraws>) -> bool {
        !self.sequential_mc ==> draws.len() >= m && forall|k: int|
            0 <= k < m ==> self.can_choose((#[trigger] draws[k]).first) && self.can_choose(
                draws[k].second,
            )
    }
}

/// The weights of `m` ranks: the best weighs `m`, the worst one.
pub open spec fn rank_weights(m: nat) -> Seq<u64> {
    Seq::new(m, |pos: int| (m - pos) as u64)
}

/// A member of which only the posterior and its surroundings are kept.
pub open spec fn copied(member: MemberModel) -> MemberModel {
    MemberModel {
        posterior: member.posterior,
        fitness: 0,
        perturbation: PerturbationModel::Unperturbed,
        adjacent: member.adjacent,
        adaptive_prior: None,
        mask: None,
    }
}

/// The weights of places are sums of small numbers.
proof fn lemma_weight_below(weights: Seq<u64>, n: int)
    requires
        0 <= n <= weights.len(),
        forall|k: int| 0 <= k < weights.len() ==> (#[trigger] weights[k]) <= u32::MAX,
    ensures
        weight_below(weights, n) <= n * 0xffff_ffff,
    decreases n,
{
    if n > 0 {
        lemma_weight_below(weights, n - 1);
    }
}

pub(crate) proof fn lemma_reached_range(weights: Seq<u64>, ticket: u64, pos: int)
    requires
        0 <= pos < weights.len(),
    ensures
        pos <= reached_from(weights, ticket, pos) < weights.len(),
    decreases weights.len() - pos,
{
    if pos + 1 < weights.len() {
        lemma_reached_range(weights, ticket, pos + 1);
    }
}

/// Draws a place by weight.
fn draw_by_weight(weights: &Vec<u64>, ticket: u64) -> (r: usize)
    requires
        0 < weights.len() <= u32::MAX,
        forall|k: int| 0 <= k < weights.len() ==> (#[trigger] weights[k]) <= u32::MAX,
    ensures
        r < weights.len(),
        r == drawn(weights@, ticket),
{
    let n: usize = weights.len();
    let mut total: u128 = 0;
    let mut i: usize = 0;
    while i < n
        invariant
            i <= n == weights.len(),
            n <= u32::MAX,
            forall|k: int| 0 <= k < weights.len() ==> (#[trigger] weights[k]) <= u32::MAX,
            total == weight_below(weights@, i as int),
            total <= i * 0xffff_ffff,
        decreases n - i,
    {
        total = total + (weights[i] as u128);
        i += 1;
    }
    proof {
        assert(total <= 0xffff_ffff * 0xffff_ffff) by (nonlinear_arith)
            requires
                total <= n * 0xffff_ffff,
                n <= 0xffff_ffff,
        ;
        assert(ticket * total <= 0xffff_ffff_ffff_ffff * (0xffff_ffff * 0xffff_ffff))
            by (nonlinear_arith)
            requires
                0 <= ticket <= 0xffff_ffff_ffff_ffff,
                0 <= total <= 0xffff_ffff * 0xffff_ffff,
        ;
    }
    let threshold: u128 = (ticket as u128) * total;
    let mut reach: u128 = 0;
    let mut pos: usize = 0;
    while pos + 1 < n
        invariant
            pos < n == weights.len(),
            n <= u32::MAX,
            forall|k: int| 0 <= k < weights.len() ==> (#[trigger] weights[k]) <= u32::MAX,
            reach == weight_below(weights@, pos as int),
            reach <= pos * 0xffff_ffff,
            threshold == ticket * weight_below(weights@, weights.len() as int),
            drawn(weights@, ticket) == reached_from(weights@, ticket, pos as int),
        decreases n - pos,
    {
        reach = reach + (weights[pos] as u128);
        proof {
            assert(reach <= 0xffff_ffff * 0xffff_ffff) by (nonlinear_arith)
                requires
                    reach <= (pos + 1) * 0xffff_ffff,
                    pos + 1 <= 0xffff_ffff,
            ;
            assert(reach * 0x1_0000_0000_0000_0000 <= (0xffff_ffff * 0xffff_ffff)
                * 0x1_0000_0000_0000_0000) by (nonlinear_arith)
                requires
                    0 <= reach <= 0xffff_ffff * 0xffff_ffff,
            ;
        }
        if reach * 0x1_0000_0000_0000_0000 >= threshold {
            return pos;
        }
        pos += 1;
    }
    pos
}

/// The members from the best score to the worst.
pub fn rank_members(population: &Vec<PopulationMember>) -> (r: Vec<usize>)
    ensures
        r@ == ranked(members_of(population@)),
        r.len() == population.len(),
        forall|k: int| 0 <= k < r.len() ==> (#[trigger] r[k]) < population.len(),
{
    let ghost pop = members_of(population@);
    let mut keys: Vec<Key> = Vec::new();
    let mut i: usize = 0;
    while i < population.len()
        invariant
            pop == members_of(population@),
            i <= population.len(),
            keys.len() == i,
            forall|k: int| 0 <= k < i ==> keys[k] == rank_keys(pop)[k],
        decreases population.len() - i,
    {
        let key: Key = (-1 - population[i].fitness, 0);
        assert(pop[i as int] == population[i as int]@);
        keys.push(key);
        i += 1;
    }
    assert(keys@ =~= rank_keys(pop));
    sorted_indices(&keys)
}

/// The winner of a tournament.
pub fn tournament_select(
    population: &Vec<PopulationMember>,
    config: &SLGMBPDecoderConfig,
    entrants: &Vec<usize>,
) -> (r: usize)
    requires
        population.len() > 0,
        entrants.len() >= config.tournament(),
    ensures
        r < population.len(),
        r == winner(members_of(population@), entrants@, config.tournament()),
{
    let m: usize = population.len();
    let ghost pop = members_of(population@);
    let rounds: usize = if config.tournament_size < 2 {
        2
    } else {
        config.tournament_size
    };
    let mut best: usize = entrants[0] % m;
    let mut n: usize = 1;
    while n < rounds
        invariant
            m == population.len(),
            m > 0,
            pop == members_of(population@),
            1 <= n <= rounds <= entrants.len(),
            best < m,
            best == winner(pop, entrants@, n as int),
        decreases rounds - n,
    {
        let idx: usize = entrants[n] % m;
        assert(pop[idx as int] == population[idx as int]@);
        assert(pop[best as int] == population[best as int]@);
        if population[idx].fitness > population[best].fitness {
            best = idx;
        }
        n += 1;
    }
    best
}

/// How far `b` lies below `a`.
fn gap_below(a: i128, b: i128) -> (r: u128)
    requires
        a >= b > i128::MIN,
    ensures
        r == a - b,
{
    if b >= 0 || a < 0 {
        (a - b) as u128
    } else {
        (a as u128) + ((-b) as u128)
    }
}

/// A parent with a chance that falls with its distance from the best score.
pub fn softmax_select(
    population: &Vec<PopulationMember>,
    config: &SLGMBPDecoderConfig,
    ticket: u64,
) -> (r: usize)
    requires
        0 < population.len() <= u32::MAX,
        forall|i: int| 0 <= i < population.len() ==> (#[trigger] population[i]).fitness > i128::MIN,
        config.can_weigh(),
    ensures
        r < population.len(),
        r == drawn(config.softmax_of(members_of(population@)), ticket),
{
    let m: usize = population.len();
    let ghost pop = members_of(population@);
    let mut best: i128 = population[0].fitness;
    let mut i: usize = 1;
    while i < m
        invariant
            m == population.len(),
            pop == members_of(population@),
            forall|k: int| 0 <= k < m ==> (#[trigger] population[k]).fitness > i128::MIN,
            1 <= i <= m,
            best == best_below(pop, i as int),
            best > i128::MIN,
            forall|k: int| 0 <= k < i ==> (#[trigger] population[k]).fitness <= best,
        decreases m - i,
    {
        assert(pop[i as int] == population[i as int]@);
        if population[i].fitness > best {
            best = population[i].fitness;
        }
        i += 1;
    }
    let mut weights: Vec<u64> = Vec::new();
    let last: usize = config.softmax_weights.len() - 1;
    let mut j: usize = 0;
    while j < m
        invariant
            m == population.len(),
            pop == members_of(population@),
            forall|k: int|
                0 <= k < m ==> i128::MIN < (#[trigger] population[k]).fitness <= best,
            best == best_below(pop, m as int),
            config.softmax_step > 0,
            last + 1 == config.softmax_weights.len(),
            forall|k: int| 0 <= k < config.softmax_weights.len() ==> 1 <= (
            #[trigger] config.softmax_weights[k]) <= u32::MAX,
            j <= m,
            weights.len() == j,
            forall|k: int|
                0 <= k < j ==> weights[k] == config.softmax_of(pop)[k] && (#[trigger] weights[k])
                    <= u32::MAX,
        decreases m - j,
    {
        assert(pop[j as int] == population[j as int]@);
        let steps: u128 = gap_below(best, population[j].fitness) / (config.softmax_step as u128);
        let k: usize = if steps <= last as u128 {
            steps as usize
        } else {
            last
        };
        assert(config.softmax_weights[k as int] == config.softmax_of(pop)[j as int]);
        weights.push(config.softmax_weights[k]);
        j += 1;
    }
    assert(weights@ =~= config.softmax_of(pop));
    draw_by_weight(&weights, ticket)
}

/// A parent with a chance that falls with its rank.
pub fn rank_select(population: &Vec<PopulationMember>, ticket: u64) -> (r: usize)
    requires
        0 < population.len() <= u32::MAX,
    ensures
        r < population.len(),
        r == ranked(members_of(population@))[drawn(rank_weights(population@.len()), ticket)],
{
    let ranks: Vec<usize> = rank_members(population);
    let m: usize = population.len();
    let mut weights: Vec<u64> = Vec::new();
    let mut pos: usize = 0;
    while pos < m
        invariant
            m <= u32::MAX,
            pos <= m,
            weights.len() == pos,
            forall|k: int|
                0 <= k < pos ==> weights[k] == rank_weights(m as nat)[k] && (#[trigger] weights[k])
                    <= u32::MAX,
        decreases m - pos,
    {
        weights.push((m - pos) as u64);
        pos += 1;
    }
    assert(weights@ =~= rank_weights(m as nat));
    let k: usize = draw_by_weight(&weights, ticket);
    ranks[k]
}

/// Chooses a parent.
pub fn select_parent(
    population: &Vec<PopulationMember>,
    config: &SLGMBPDecoderConfig,
    draw: &ParentDraw,
) -> (r: usize)
    requires
        config.can_weigh(),
        0 < population.len() <= u32::MAX,
        forall|i: int| 0 <= i < population.len() ==> (#[trigger] population[i]).fitness > i128::MIN,
        config.can_choose(*draw),
    ensures
        r < population.len(),
        r == config.parent(members_of(population@), *draw),
{
    match config.selection_mode {
        SelectionMode::Tournament => tournament_select(population, config, &draw.entrants),
        SelectionMode::Weighted => match config.weighted_selection_mode {
            WeightedSelectionMode::Softmax => softmax_select(population, config, draw.ticket),
            WeightedSelectionMode::Rank => rank_select(population, draw.ticket),
        },
    }
}

/// The posterior of a child.
fn cross(
    a: &Vec<i64>,
    b: &Vec<i64>,
    config: &SLGMBPDecoderConfig,
    draws: &ChildDraws,
) -> (r: Vec<i64>)
    requires
        a.len() == b.len(),
        are_ratios(a@),
        are_ratios(b@),
    ensures
        r@ == config.crossed(a@, b@, *draws),
        are_ratios(r@),
{
    let mut child: Vec<i64> = Vec::new();
    let mut v: usize = 0;
    while v < a.len()
        invariant
            a.len() == b.len(),
            are_ratios(a@),
            are_ratios(b@),
            v <= a.len(),
            child.len() == v,
            forall|u: int|
                0 <= u < v ==> child[u] == config.crossed(a@, b@, *draws)[u] && (
                #[trigger] child[u]) > i64::MIN,
        decreases a.len() - v,
    {
        let x: i64 = if coin_at(&draws.from_first, v) {
            a[v]
        } else {
            b[v]
        };
        let flips: bool = magnitude(x) < config.mutation_llr_abs_threshold && coin_at(
            &draws.mutates,
            v,
        );
        let y: i64 = if flips {
            -x
        } else {
            x
        };
        child.push(y);
        v += 1;
    }
    assert(child@ =~= config.crossed(a@, b@, *draws));
    child
}

proof fn lemma_sorted_set_push(s: Seq<usize>, x: usize)
    ensures
        sorted_set(s.push(x)) == with_member(sorted_set(s), x),
{
    assert(s.push(x).drop_last() =~= s);
}

/// The values of both lists, once each and in increasing order.
fn union_of(a: &Vec<usize>, b: &Vec<usize>) -> (r: Vec<usize>)
    ensures
        r@ == sorted_set(a@ + b@),
{
    let mut r: Vec<usize> = Vec::new();
    let mut i: usize = 0;
    assert(a@.take(0) =~= Seq::empty());
    while i < a.len()
        invariant
            i <= a.len(),
            r@ == sorted_set(a@.take(i as int)),
        decreases a.len() - i,
    {
        proof {
            lemma_sorted_set_push(a@.take(i as int), a@[i as int]);
            assert(a@.take(i as int).push(a@[i as int]) =~= a@.take(i + 1));
        }
        add_member(&mut r, a[i]);
        i += 1;
    }
    let mut j: usize = 0;
    assert(a@.take(i as int) + b@.take(0) =~= a@ + b@.take(0));
    assert(a@.take(i as int) =~= a@ + b@.take(0));
    while j < b.len()
        invariant
            j <= b.len(),
            r@ == sorted_set(a@ + b@.take(j as int)),
        decreases b.len() - j,
    {
        proof {
            lemma_sorted_set_push(a@ + b@.take(j as int), b@[j as int]);
            assert((a@ + b@.take(j as int)).push(b@[j as int]) =~= a@ + b@.take(j + 1));
        }
        add_member(&mut r, b[j]);
        j += 1;
    }
    assert(b@.take(j as int) =~= b@);
    r
}

/// A copy for sequential sampling.
fn copy_member(member: &PopulationMember) -> (r: PopulationMember)
    ensures
        r@ == copied(member@),
{
    let r = PopulationMember {
        posterior: member.posterior.clone(),
        fitness: 0,
        perturbation_state: PerturbationState::Unperturbed,
        residual_adjacent_variable_indices: member.residual_adjacent_variable_indices.clone(),
        adaptive_prior: None,
        adaptive_target_mask: None,
    };
    assert(r@ =~= copied(member@));
    r
}

pub(crate) proof fn lemma_source_range(config: SLGMBPDecoderConfig, m: nat, k: int)
    requires
        0 <= k < m,
    ensures
        0 <= config.source(m, k) < config.source_count(m) <= m,
{
    let e = config.source_count(m);
    if k >= e {
        let rest = m - e;
        let base = rest / e;
        let extra = rest % e;
        let j = k - e;
        vstd::arithmetic::div_mod::lemma_fundamental_div_mod(rest, e);
        assert(rest == e * base + extra);
        assert(0 <= extra < e) by (nonlinear_arith)
            requires
                extra == rest % e,
                e > 0,
        ;
        assert(base >= 0) by (nonlinear_arith)
            requires
                base == rest / e,
                rest >= 0,
                e > 0,
        ;
        if j < extra * (base + 1) {
            assert(0 <= j / (base + 1) < extra) by (nonlinear_arith)
                requires
                    0 <= j < extra * (base + 1),
                    base >= 0,
            ;
        } else {
            let i = j - extra * (base + 1);
            assert(i < (e - extra) * base) by (nonlinear_arith)
                requires
                    i == j - extra * (base + 1),
                    j < rest,
                    rest == e * base + extra,
            ;
            assert(base > 0) by (nonlinear_arith)
                requires
                    0 <= i < (e - extra) * base,
                    base >= 0,
            ;
            assert(0 <= i / base < e - extra) by (nonlinear_arith)
                requires
                    0 <= i < (e - extra) * base,
                    base > 0,
            ;
        }
    }
}

/// Every member of the elite gives rise to a copy of itself, and copies come in the order
/// of the ranks they are made of once each member of the elite has one.
pub proof fn law_copies_in_order(config: SLGMBPDecoderConfig, m: nat, k: int, l: int)
    requires
        0 <= k < l < m,
    ensures
        k < config.source_count(m) ==> config.source(m, k) == k,
        k >= config.source_count(m) ==> config.source(m, k) <= config.source(m, l),
{
    let e = config.source_count(m);
    if k >= e {
        lemma_source_range(config, m, k);
        let rest = m - e;
        let base = rest / e;
        let extra = rest % e;
        let j = k - e;
        let i = l - e;
        vstd::arithmetic::div_mod::lemma_fundamental_div_mod(rest, e);
        assert(0 <= extra < e) by (nonlinear_arith)
            requires
                extra == rest % e,
                e > 0,
        ;
        assert(base >= 0) by (nonlinear_arith)
            requires
                base == rest / e,
                rest >= 0,
                e > 0,
        ;
        if i < extra * (base + 1) {
            vstd::arithmetic::div_mod::lemma_div_is_ordered(j, i, base + 1);
        } else {
            let b = i - extra * (base + 1);
            assert(base > 0) by (nonlinear_arith)
                requires
                    b >= 0,
                    b == i - extra * (base + 1),
                    i < rest,
                    rest == e * base + extra,
                    base >= 0,
            ;
            if j < extra * (base + 1) {
                assert(j / (base + 1) <= extra) by (nonlinear_arith)
                    requires
                        0 <= j < extra * (base + 1),
                        base >= 0,
                ;
                assert(b / base >= 0) by (nonlinear_arith)
                    requires
                        b >= 0,
                        base > 0,
                ;
            } else {
                vstd::arithmetic::div_mod::lemma_div_is_ordered(
                    j - extra * (base + 1),
                    b,
                    base,
                );
            }
        }
    }
}

/// The rank of the member that copy `k` of `m` is made of.
fn source_of(config: &SLGMBPDecoderConfig, m: usize, k: usize) -> (r: usize)
    requires
        k < m,
    ensures
        r == config.source(m as nat, k as int),
        r < m,
{
    let e: usize = if config.elite_count < 1 {
        1
    } else if config.elite_count > m {
        m
    } else {
        config.elite_count
    };
    proof {
        lemma_source_range(*config, m as nat, k as int);
    }
    if k < e {
        return k;
    }
    let rest: usize = m - e;
    let base: usize = rest / e;
    let extra: usize = rest % e;
    let j: usize = k - e;
    proof {
        vstd::arithmetic::div_mod::lemma_fundamental_div_mod(rest as int, e as int);
        assert(extra * (base + 1) <= rest) by (nonlinear_arith)
            requires
                rest == e * base + extra,
                extra < e,
        ;
        assert(base + 1 <= rest || extra == 0 || base == 0) by (nonlinear_arith)
            requires
                extra * (base + 1) <= rest,
        ;
        assert(base < m) by (nonlinear_arith)
            requires
                rest == e * base + extra,
                e >= 1,
                rest < m,
        ;
    }
    let shared: usize = extra * (base + 1);
    if j < shared {
        j / (base + 1)
    } else {
        proof {
            assert(base > 0) by (nonlinear_arith)
                requires
                    j >= shared,
                    shared == extra * (base + 1),
                    j < rest,
                    rest == e * base + extra,
                    base >= 0,
            ;
        }
        extra + (j - shared) / base
    }
}

/// Breeds the next generation.
pub fn build_next_generation(
    population: &Vec<PopulationMember>,
    config: &SLGMBPDecoderConfig,
    draws: &Vec<ChildDraws>,
) -> (r: Vec<PopulationMember>)
    requires
        config.can_weigh(),
        population.len() <= u32::MAX,
        all_fit(members_of(population@), width(members_of(population@))),
        config.can_breed(population@.len(), draws@),
    ensures
        members_of(r@) == config.next_generation(members_of(population@), draws@),
        r.len() == population.len(),
        all_fit(members_of(r@), width(members_of(population@))),
{
    let ghost pop = members_of(population@);
    let ghost cols = width(pop);
    let m: usize = population.len();
    let ranks: Vec<usize> = rank_members(population);
    let mut children: Vec<PopulationMember> = Vec::new();
    assert forall|i: int| 0 <= i < m implies (#[trigger] population[i]).fitness > i128::MIN by {
        assert(pop[i].wf(cols));
    }
    let mut k: usize = 0;
    while k < m
        invariant
            config.can_weigh(),
            m == population.len(),
            m <= u32::MAX,
            pop == members_of(population@),
            all_fit(pop, cols),
            forall|i: int| 0 <= i < m ==> (#[trigger] population[i]).fitness > i128::MIN,
            config.can_breed(m as nat, draws@),
            ranks@ == ranked(pop),
            ranks.len() == m,
            forall|i: int| 0 <= i < m ==> (#[trigger] ranks[i]) < m,
            k <= m,
            children.len() == k,
            forall|i: int|
                0 <= i < k ==> (#[trigger] children[i])@ == config.next_generation(pop, draws@)[i]
                    && children[i]@.wf(cols),
        decreases m - k,
    {
        let child: PopulationMember = if config.sequential_mc {
            let s: usize = source_of(config, m, k);
            let idx: usize = ranks[s];
            assert(pop[idx as int].wf(cols));
            copy_member(&population[idx])
        } else if k < config.elite_count {
            let idx: usize = ranks[k];
            assert(pop[idx as int].wf(cols));
            population[idx].clone()
        } else {
            assert(config.can_choose(draws[k as int].first));
            let pa: usize = select_parent(population, config, &draws[k].first);
            let pb: usize = select_parent(population, config, &draws[k].second);
            assert(pop[pa as int].wf(cols));
            assert(pop[pb as int].wf(cols));
            let posterior: Vec<i64> = cross(
                &population[pa].posterior,
                &population[pb].posterior,
                config,
                &draws[k],
            );
            let perturbation_state: PerturbationState = match config.perturbation_method {
                PerturbationMethod::Fixed => {
                    if draws[k].state_from_first {
                        population[pa].perturbation_state.clone()
                    } else {
                        population[pb].perturbation_state.clone()
                    }
                },
                PerturbationMethod::Resample => PerturbationState::Unperturbed,
            };
            let adjacent: Vec<usize> = union_of(
                &population[pa].residual_adjacent_variable_indices,
                &population[pb].residual_adjacent_variable_indices,
            );
            let c = PopulationMember {
                posterior,
                fitness: 0,
                perturbation_state,
                residual_adjacent_variable_indices: adjacent,
                adaptive_prior: None,
                adaptive_target_mask: None,
            };
            assert(c@ =~= config.child(pop[pa as int], pop[pb as int], draws[k as int]));
            c
        };
        assert(child@ == config.next_generation(pop, draws@)[k as int]);
        children.push(child);
        k += 1;
    }
    assert(members_of(children@) =~= config.next_generation(pop, draws@));
    children
}

} // verus!
