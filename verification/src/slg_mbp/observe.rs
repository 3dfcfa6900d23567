//! A search finds the same whether it is observed or not.

use vstd::prelude::*;

use super::adapt::{MemberDraws, SLGMBPDecoder};
use super::config::SLGMBPDecoderConfig;
use super::ga_ops::{
    best_below, drawn, entrant, lemma_reached_range, lemma_source_range, rank_keys, rank_weights,
    ranked, winner, ChildDraws, MemberModel, ParentDraw,
};
use super::search::{GenerationDraws, LayerModel, SearchDraws, SearchModel};
use super::trace::TraceModel;
use crate::matrix::Bit;
use crate::order::law_order;

verus! {

/// Two members that differ only in the variables noted as next to unexplained checks.
spec fn same_member(a: MemberModel, b: MemberModel) -> bool {
    a == (MemberModel { adjacent: a.adjacent, ..b })
}

/// The members of two populations are the same but for their surroundings.
spec fn same_members(a: Seq<MemberModel>, b: Seq<MemberModel>) -> bool {
    &&& a.len() == b.len()
    &&& forall|i: int| 0 <= i < a.len() ==> #[trigger] same_member(a[i], b[i])
}

/// Two searches that differ only in what observing adds.
spec fn same_search(a: SearchModel, b: SearchModel) -> bool {
    &&& same_members(a.members, b.members)
    &&& b == (SearchModel {
        members: b.members,
        scores: b.scores,
        top_posteriors: b.top_posteriors,
        top_adjacent: b.top_adjacent,
        top_memories: b.top_memories,
        entries: b.entries,
        ..a
    })
}

/// Two generations that differ only in what observing adds.
spec fn same_layer(a: LayerModel, b: LayerModel) -> bool {
    &&& same_search(a.search, b.search)
    &&& same_members(a.next, b.next)
    &&& b == (LayerModel { search: b.search, next: b.next, ..a })
}

proof fn lemma_same_winner(
    a: Seq<MemberModel>,
    b: Seq<MemberModel>,
    entrants: Seq<usize>,
    n: int,
)
    requires
        same_members(a, b),
        a.len() > 0,
    ensures
        winner(a, entrants, n) == winner(b, entrants, n),
        0 <= winner(a, entrants, n) < a.len(),
    decreases n,
{
    if n > 1 {
        lemma_same_winner(a, b, entrants, n - 1);
        let w = winner(a, entrants, n - 1);
        let e = entrant(entrants, a.len(), n - 1);
        assert(same_member(a[w], b[w]));
        assert(same_member(a[e], b[e]));
    }
}

proof fn lemma_same_best(a: Seq<MemberModel>, b: Seq<MemberModel>, n: int)
    requires
        same_members(a, b),
        a.len() > 0,
        n <= a.len(),
    ensures
        best_below(a, n) == best_below(b, n),
    decreases n,
{
    if n > 1 {
        lemma_same_best(a, b, n - 1);
        assert(same_member(a[n - 1], b[n - 1]));
    } else {
        assert(same_member(a[0], b[0]));
    }
}

proof fn lemma_same_ranks(a: Seq<MemberModel>, b: Seq<MemberModel>)
    requires
        same_members(a, b),
        a.len() <= usize::MAX,
    ensures
        ranked(a) == ranked(b),
        ranked(a).len() == a.len(),
        forall|k: int| 0 <= k < a.len() ==> (#[trigger] ranked(a)[k]) < a.len(),
{
    assert forall|i: int| 0 <= i < a.len() implies rank_keys(a)[i] == rank_keys(b)[i] by {
        assert(same_member(a[i], b[i]));
    }
    assert(rank_keys(a) =~= rank_keys(b));
    law_order(rank_keys(a), a.len());
}

proof fn lemma_same_parent(
    config: SLGMBPDecoderConfig,
    a: Seq<MemberModel>,
    b: Seq<MemberModel>,
    draw: ParentDraw,
)
    requires
        same_members(a, b),
        0 < a.len() <= usize::MAX,
    ensures
        config.parent(a, draw) == config.parent(b, draw),
        0 <= config.parent(a, draw) < a.len(),
{
    lemma_same_winner(a, b, draw.entrants@, config.tournament());
    lemma_same_best(a, b, a.len() as int);
    lemma_same_ranks(a, b);
    assert forall|i: int| 0 <= i < a.len() implies config.softmax_of(a)[i] == config.softmax_of(
        b,
    )[i] by {
        assert(same_member(a[i], b[i]));
    }
    assert(config.softmax_of(a) =~= config.softmax_of(b));
    lemma_reached_range(config.softmax_of(a), draw.ticket, 0);
    lemma_reached_range(rank_weights(a.len()), draw.ticket, 0);
    assert(ranked(a)[drawn(rank_weights(a.len()), draw.ticket)] < a.len());
}

proof fn lemma_same_children(
    config: SLGMBPDecoderConfig,
    a: Seq<MemberModel>,
    b: Seq<MemberModel>,
    draws: Seq<ChildDraws>,
)
    requires
        same_members(a, b),
        a.len() <= usize::MAX,
    ensures
        same_members(config.next_generation(a, draws), config.next_generation(b, draws)),
        config.next_generation(a, draws).len() == a.len(),
{
    let x = config.next_generation(a, draws);
    let y = config.next_generation(b, draws);
    lemma_same_ranks(a, b);
    assert forall|k: int| 0 <= k < x.len() implies #[trigger] same_member(x[k], y[k]) by {
        if config.sequential_mc {
            lemma_source_range(config, a.len(), k);
            let i = ranked(a)[config.source(a.len(), k)] as int;
            assert(same_member(a[i], b[i]));
        } else if k < config.elite_count {
            let i = ranked(a)[k] as int;
            assert(same_member(a[i], b[i]));
        } else {
            lemma_same_parent(config, a, b, draws[k].first);
            lemma_same_parent(config, a, b, draws[k].second);
            let i = config.parent(a, draws[k].first);
            let j = config.parent(a, draws[k].second);
            assert(same_member(a[i], b[i]));
            assert(same_member(a[j], b[j]));
        }
    }
}

impl SLGMBPDecoder {
    proof fn lemma_same_phase1(
        self,
        a: SearchModel,
        b: SearchModel,
        det: Seq<Bit>,
        population: Seq<Vec<i64>>,
        m: nat,
    )
        requires
            !self.config.biased_relay_mode,
            same_search(a, b),
            a.members.len() <= m,
            m <= population.len(),
        ensures
            ({
                let x = self.phase1_run(a, det, population, m, false);
                let y = self.phase1_run(b, det, population, m, true);
                &&& same_search(x, y)
                &&& x.members.len() <= population.len()
            }),
        decreases population.len() - m,
    {
        if m < population.len() {
            let x = self.phase1_step(a, det, m, population[m as int]@, false);
            let y = self.phase1_step(b, det, m, population[m as int]@, true);
            assert forall|i: int| 0 <= i < x.members.len() implies #[trigger] same_member(
                x.members[i],
                y.members[i],
            ) by {
                if i < a.members.len() {
                    assert(same_member(a.members[i], b.members[i]));
                }
            }
            assert(same_search(x, y));
            self.lemma_same_phase1(x, y, det, population, m + 1);
        }
    }

    proof fn lemma_same_child(
        self,
        a: LayerModel,
        b: LayerModel,
        det: Seq<Bit>,
        g: nat,
        k: nat,
        child: MemberModel,
        other: MemberModel,
        draws: MemberDraws,
    )
        requires
            !self.config.adaptive_memory,
            same_layer(a, b),
            same_member(child, other),
        ensures
            same_layer(
                self.child_step(a, det, g, k, child, draws, false),
                self.child_step(b, det, g, k, other, draws, true),
            ),
            self.child_step(a, det, g, k, child, draws, false).next.len() <= a.next.len() + 1,
    {
        let x = self.child_step(a, det, g, k, child, draws, false);
        let y = self.child_step(b, det, g, k, other, draws, true);
        let s = a.search.threshold;
        let p = self.generation_leg(det, g, child, s, draws);
        let q = self.generation_leg(det, g, other, s, draws);
        assert(same_member(p.member, q.member));
        assert(p.gamma == q.gamma);
        assert(p.phase == q.phase);
        assert forall|i: int| 0 <= i < x.next.len() implies #[trigger] same_member(
            x.next[i],
            y.next[i],
        ) by {
            if i < a.next.len() {
                assert(same_member(a.next[i], b.next[i]));
            }
        }
    }

    proof fn lemma_same_run(
        self,
        a: LayerModel,
        b: LayerModel,
        det: Seq<Bit>,
        g: nat,
        children: Seq<MemberModel>,
        others: Seq<MemberModel>,
        draws: Seq<MemberDraws>,
        k: nat,
    )
        requires
            !self.config.adaptive_memory,
            same_layer(a, b),
            same_members(children, others),
            a.next.len() <= k,
            k <= children.len(),
        ensures
            ({
                let x = self.children_run(a, det, g, children, draws, k, false);
                let y = self.children_run(b, det, g, others, draws, k, true);
                &&& same_layer(x, y)
                &&& x.next.len() <= children.len()
            }),
        decreases children.len() - k,
    {
        if k < children.len() && !a.stopped {
            let c = children[k as int];
            let d = others[k as int];
            assert(same_member(c, d));
            self.lemma_same_child(a, b, det, g, k, c, d, draws[k as int]);
            self.lemma_same_run(
                self.child_step(a, det, g, k, c, draws[k as int], false),
                self.child_step(b, det, g, k, d, draws[k as int], true),
                det,
                g,
                children,
                others,
                draws,
                k + 1,
            );
        }
    }

    proof fn lemma_same_generations(
        self,
        a: SearchModel,
        b: SearchModel,
        det: Seq<Bit>,
        draws: Seq<GenerationDraws>,
        g: nat,
    )
        requires
            !self.config.adaptive_memory,
            same_search(a, b),
            a.members.len() <= usize::MAX,
        ensures
            same_search(
                self.generations_run(a, det, draws, g, false),
                self.generations_run(b, det, draws, g, true),
            ),
        decreases self.config.g_max - g,
    {
        if g < self.config.g_max {
            let d = draws[g as int];
            lemma_same_children(self.config, a.members, b.members, d.children@);
            self.lemma_same_run(
                self.first_layer(a),
                self.first_layer(b),
                det,
                g,
                self.config.next_generation(a.members, d.children@),
                self.config.next_generation(b.members, d.children@),
                d.members@,
                0,
            );
            let x = self.generation(a, det, g, d, false);
            let y = self.generation(b, det, g, d, true);
            assert(same_search(x, y));
            if x.collected.len() < self.wanted() {
                self.lemma_same_generations(x, y, det, draws, g + 1);
            }
        }
    }

    /// Observing a search does not change it where neither relay legs are biased nor memory
    /// strengths adapted: the result is the same, and so is the record but for what only an
    /// observed search notes.
    pub proof fn law_observing_changes_nothing(self, det: Seq<Bit>, draws: SearchDraws)
        requires
            !self.config.adaptive_memory,
            !self.config.biased_relay_mode,
        ensures
            ({
                let plain = self.searched(det, draws, false);
                let observed = self.searched(det, draws, true);
                let early = self.satisfied(self.phase1(det, draws.population@, false));
                let record = self.record(observed, det, early, true);
                &&& self.verdict(observed) == self.verdict(plain)
                &&& self.satisfied(self.phase1(det, draws.population@, true)) == early
                &&& record == (TraceModel {
                    scores: record.scores,
                    observed: record.observed,
                    spike: record.spike,
                    ..self.record(plain, det, early, false)
                })
            }),
    {
        assert(draws.population.len() <= usize::MAX);
        assert(same_search(self.first_search(), self.first_search()));
        self.lemma_same_phase1(
            self.first_search(),
            self.first_search(),
            det,
            draws.population@,
            0,
        );
        let a = self.phase1(det, draws.population@, false);
        let b = self.phase1(det, draws.population@, true);
        let x = SearchModel { total: a.phase1, ..a };
        let y = SearchModel { total: b.phase1, ..b };
        assert(same_search(x, y));
        self.lemma_same_generations(x, y, det, draws.generations@, 0);
    }
}

} // verus!
