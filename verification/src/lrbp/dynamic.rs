//! Legs with a dynamic schedule: the check that is least likely to be in error comes next.

use vstd::prelude::*;

use crate::arith::{abs, magnitude};
use crate::decoder::{DecodeResult, ResultModel};
use crate::logistic::{logistic, logistic_at};
use crate::lrbp::legs::{row_of_coins, DynMode, LRBPDecoder, LRBPDecoderConfig};
use crate::matrix::{lemma_col_sorted, lemma_entry_col, lemma_row_sorted, Bit};
use crate::min_sum::{coins_at, is_gain, BpModel};

verus! {

/// The state of a sweep.
#[verifier::ext_equal]
pub struct DynState {
    pub bp: BpModel,
    /// The posteriors by which checks are scored.
    pub shown: Seq<i64>,
    /// How often each check was updated.
    pub counts: Seq<usize>,
}

impl LRBPDecoderConfig {
    /// The parameters of a dynamic schedule are in range, where the unit is `one`.
    pub open spec fn dynamic_wf(self, one: int) -> bool {
        &&& self.logistic_wf(one)
        &&& 0 <= self.gamma_dyn_penalty <= one
    }

    /// The certainty of the first `n` variables of a row, all together.
    pub open spec fn certain(self, shown: Seq<i64>, row: Seq<usize>, n: nat, one: int) -> int
        decreases n,
    {
        if n == 0 {
            one
        } else {
            self.certain(shown, row, (n - 1) as nat, one) * self.certainty(
                abs(shown[row[n - 1] as int] as int),
                one,
            ) / one
        }
    }

    /// The certainty of a variable whose posterior has the magnitude `x`: by how much it is
    /// more likely right than wrong.
    pub open spec fn certainty(self, x: int, one: int) -> int {
        2 * logistic(self.logistic@, self.logistic_per_unit as int, one, x) - one
    }

    /// The probability that a check with the given variables is in error: half of what they
    /// leave uncertain.
    pub open spec fn error_probability(self, shown: Seq<i64>, row: Seq<usize>, one: int) -> int {
        (one - self.certain(shown, row, row.len(), one)) / 2
    }

    /// The score of check `c`.
    pub open spec fn score(self, s: DynState, c: int) -> int {
        let p = self.error_probability(s.shown, s.bp.matrix.row(c), s.bp.config.one());
        match self.dyn_mode {
            DynMode::EBP => p,
            DynMode::PEBP => p + self.gamma_dyn_penalty * s.counts[c],
        }
    }

    /// Whether check `c` may be updated.
    pub open spec fn eligible(self, s: DynState, c: int) -> bool {
        self.dyn_mode is PEBP || s.counts[c] == 0
    }

    /// The last check of least score among those below `n` that may be updated.
    pub open spec fn next_below(self, s: DynState, n: nat) -> Option<int>
        decreases n,
    {
        if n == 0 {
            None
        } else {
            let before = self.next_below(s, (n - 1) as nat);
            if !self.eligible(s, n - 1) {
                before
            } else {
                match before {
                    Some(b) => if self.score(s, n - 1) <= self.score(s, b) {
                        Some(n - 1)
                    } else {
                        before
                    },
                    None => Some(n - 1),
                }
            }
        }
    }

    /// The first `n` of the `variables` have sent new messages, one after the other, and
    /// their posteriors are shown.
    pub open spec fn shown_after(
        self,
        s: DynState,
        coins: Seq<bool>,
        variables: Seq<usize>,
        n: nat,
    ) -> DynState
        decreases n,
    {
        if n == 0 {
            s
        } else {
            let before = self.shown_after(s, coins, variables, (n - 1) as nat);
            let v = variables[n - 1] as int;
            let bp = before.bp.variable_resent(coins, v);
            DynState { bp, shown: before.shown.update(v, bp.posterior[v]), ..before }
        }
    }

    /// Check `c` has sent new messages and its variables have answered.
    pub open spec fn updated(
        self,
        s: DynState,
        det: Seq<Bit>,
        coins: Seq<bool>,
        c: int,
    ) -> DynState {
        let row = s.bp.matrix.row(c);
        let sent = DynState { bp: s.bp.check_updated(det, c), ..s };
        let after = self.shown_after(sent, coins, row, row.len());
        DynState { counts: s.counts.update(c, (s.counts[c] + 1) as usize), ..after }
    }

    /// The next `n` updates of a sweep. The coins of an update are row `base`.
    pub open spec fn sweep(
        self,
        s: DynState,
        det: Seq<Bit>,
        coins: Seq<Vec<bool>>,
        base: int,
        n: nat,
    ) -> DynState
        decreases n,
    {
        if n == 0 {
            s
        } else {
            match self.next_below(s, s.bp.matrix.rows) {
                Some(c) => self.sweep(
                    self.updated(s, det, coins_at(coins, base), c),
                    det,
                    coins,
                    base + 1,
                    (n - 1) as nat,
                ),
                None => s,
            }
        }
    }

    /// The state after a sweep of as many updates as there are checks. Without checks
    /// nothing is done.
    pub open spec fn swept(self, d: BpModel, det: Seq<Bit>, coins: Seq<Vec<bool>>) -> BpModel {
        if d.matrix.rows == 0 {
            d
        } else {
            let s = DynState {
                bp: d,
                shown: d.posterior,
                counts: Seq::new(d.matrix.rows, |c: int| 0usize),
            };
            let base = (d.iteration * d.matrix.rows) as int;
            self.sweep(s, det, coins, base, d.matrix.rows).bp.decided()
        }
    }

    /// Sweeping until the decoding explains the detectors, `n` times at most. The last sweep
    /// counts only where it does not explain them. A sweep without checks explains nothing.
    pub open spec fn sweeps(
        self,
        d: BpModel,
        det: Seq<Bit>,
        coins: Seq<Vec<bool>>,
        n: nat,
    ) -> (BpModel, bool)
        decreases n,
    {
        if n == 0 {
            (d, false)
        } else {
            let next = self.swept(d, det, coins);
            if d.matrix.rows > 0 && next.converged(det) {
                (next, true)
            } else {
                self.sweeps(next.counted(), det, coins, (n - 1) as nat)
            }
        }
    }

    /// The result of a leg with a dynamic schedule that starts from `d`.
    pub open spec fn dynamic_result(self, d: BpModel, det: Seq<Bit>, coins: Seq<Vec<bool>>) -> ResultModel {
        let (last, success) = self.sweeps(d, det, coins, self.t_dyn as nat);
        ResultModel {
            iterations: last.iteration + if success {
                1nat
            } else {
                0
            },
            ..last.result(success, last.decoded_detectors(), self.t_dyn as nat)
        }
    }
}

/// The certainty of the variables of a row is a share of the unit.
proof fn lemma_certain(config: LRBPDecoderConfig, shown: Seq<i64>, row: Seq<usize>, n: nat, one: int)
    requires
        one >= 1,
        config.logistic_wf(one),
    ensures
        0 <= config.certain(shown, row, n, one) <= one,
    decreases n,
{
    if n > 0 {
        lemma_certain(config, shown, row, (n - 1) as nat, one);
        let before = config.certain(shown, row, (n - 1) as nat, one);
        let x = abs(shown[row[n - 1] as int] as int);
        let t = config.certainty(x, one);
        let per_unit = config.logistic_per_unit as int;
        assert(x * per_unit / one >= 0) by (nonlinear_arith)
            requires
                x >= 0,
                per_unit >= 1,
                one >= 1,
        ;
        assert(0 <= t <= one);
        assert(0 <= before * t / one <= one) by (nonlinear_arith)
            requires
                0 <= before <= one,
                0 <= t <= one,
                one >= 1,
        ;
    }
}

/// The certainty of variables does not depend on what is shown of others.
proof fn lemma_certain_elsewhere(
    config: LRBPDecoderConfig,
    shown: Seq<i64>,
    row: Seq<usize>,
    n: nat,
    one: int,
    v: usize,
    x: i64,
)
    requires
        n <= row.len(),
        !row.contains(v),
        v < shown.len(),
        forall|k: int| 0 <= k < row.len() ==> (#[trigger] row[k]) < shown.len(),
    ensures
        config.certain(shown.update(v as int, x), row, n, one) == config.certain(
            shown,
            row,
            n,
            one,
        ),
    decreases n,
{
    if n > 0 {
        lemma_certain_elsewhere(config, shown, row, (n - 1) as nat, one, v, x);
        assert(row.contains(row[n - 1]));
        assert(shown.update(v as int, x)[row[n - 1] as int] == shown[row[n - 1] as int]);
    }
}

/// The scores of all checks.
pub open spec fn scored(config: LRBPDecoderConfig, s: DynState, scores: Seq<i128>) -> bool {
    &&& scores.len() == s.bp.matrix.rows
    &&& forall|c: int| 0 <= c < scores.len() ==> (#[trigger] scores[c]) == config.score(s, c)
}

/// What is shown and counted fits the code, and no check was updated more than `n` times.
pub open spec fn dyn_wf(s: DynState, n: nat) -> bool {
    &&& s.bp.wf()
    &&& s.shown.len() == s.bp.cols()
    &&& forall|v: int| 0 <= v < s.shown.len() ==> s.shown[v] > i64::MIN
    &&& s.counts.len() == s.bp.matrix.rows
    &&& forall|c: int| 0 <= c < s.counts.len() ==> (#[trigger] s.counts[c]) <= n
}

impl LRBPDecoder {
    /// The score of check `c`.
    pub fn check_priority_score(&self, shown: &Vec<i64>, counts: &Vec<usize>, c: usize) -> (r: i128)
        requires
            self.wf(),
            self.lrbp_config.dynamic_wf(self.bp_decoder@.config.one()),
            c < self.bp_decoder@.matrix.rows,
            dyn_wf(
                (DynState { bp: self.bp_decoder@, shown: shown@, counts: counts@ }),
                usize::MAX as nat,
            ),
        ensures
            r == self.lrbp_config.score(
                (DynState { bp: self.bp_decoder@, shown: shown@, counts: counts@ }),
                c as int,
            ),
    {
        let ghost m = self.bp_decoder@.matrix;
        let ghost config = self.lrbp_config;
        let one: i64 = self.bp_decoder.config.unit();
        let row: Vec<usize> = self.bp_decoder.check_matrix.row_indices(c);
        proof {
            lemma_row_sorted(m, c as int);
        }
        let mut product: i64 = one;
        let mut k: usize = 0;
        while k < row.len()
            invariant
                self.wf(),
                config == self.lrbp_config,
                config.dynamic_wf(one as int),
                1 <= one,
                row@ == m.row(c as int),
                shown.len() == m.cols,
                forall|v: int| 0 <= v < shown.len() ==> shown[v] > i64::MIN,
                forall|a: int| 0 <= a < row.len() ==> row[a] < m.cols,
                k <= row.len(),
                product == config.certain(shown@, row@, k as nat, one as int),
                0 <= product <= one,
            decreases row.len() - k,
        {
            let share: i64 = logistic_at(
                &self.lrbp_config.logistic,
                self.lrbp_config.logistic_per_unit,
                one,
                magnitude(shown[row[k]]),
            );
            let certainty: i64 = share - (one - share);
            proof {
                lemma_certain(config, shown@, row@, (k + 1) as nat, one as int);
                assert(0 <= certainty <= one);
                assert(product * certainty <= 0x7fff_ffff_ffff_ffff * 0x7fff_ffff_ffff_ffff)
                    by (nonlinear_arith)
                    requires
                        0 <= product <= 0x7fff_ffff_ffff_ffff,
                        0 <= certainty <= 0x7fff_ffff_ffff_ffff,
                ;
                assert(product * certainty >= 0) by (nonlinear_arith)
                    requires
                        product >= 0,
                        certainty >= 0,
                ;
            }
            let both: i128 = (product as i128) * (certainty as i128);
            product = (both / (one as i128)) as i64;
            k += 1;
        }
        let p: i128 = ((one - product) / 2) as i128;
        match self.lrbp_config.dyn_mode {
            DynMode::EBP => p,
            DynMode::PEBP => {
                let penalty: i64 = self.lrbp_config.gamma_dyn_penalty;
                let count: usize = counts[c];
                proof {
                    assert(penalty * count <= 0x7fff_ffff_ffff_ffff * 0xffff_ffff_ffff_ffff)
                        by (nonlinear_arith)
                        requires
                            0 <= penalty <= 0x7fff_ffff_ffff_ffff,
                            0 <= count <= 0xffff_ffff_ffff_ffff,
                    ;
                    assert(penalty * count >= 0) by (nonlinear_arith)
                        requires
                            penalty >= 0,
                            count >= 0,
                    ;
                }
                p + (penalty as i128) * (count as i128)
            },
        }
    }

    /// Scores the checks of variable `v` anew, after `x` was shown of it.
    fn rescore(
        &self,
        shown: &Vec<i64>,
        counts: &Vec<usize>,
        v: usize,
        scores: &mut Vec<i128>,
        Ghost(before): Ghost<Seq<i64>>,
    )
        requires
            self.wf(),
            self.lrbp_config.dynamic_wf(self.bp_decoder@.config.one()),
            v < self.bp_decoder@.cols(),
            before.len() == shown.len(),
            shown@ == before.update(v as int, shown@[v as int]),
            dyn_wf(
                (DynState { bp: self.bp_decoder@, shown: shown@, counts: counts@ }),
                usize::MAX as nat,
            ),
            scored(
                self.lrbp_config,
                (DynState { bp: self.bp_decoder@, shown: before, counts: counts@ }),
                old(scores)@,
            ),
        ensures
            scored(
                self.lrbp_config,
                (DynState { bp: self.bp_decoder@, shown: shown@, counts: counts@ }),
                final(scores)@,
            ),
    {
        let ghost m = self.bp_decoder@.matrix;
        let ghost config = self.lrbp_config;
        let ghost earlier = DynState { bp: self.bp_decoder@, shown: before, counts: counts@ };
        let ghost later = DynState { bp: self.bp_decoder@, shown: shown@, counts: counts@ };
        let checks: Vec<usize> = self.bp_decoder.check_matrix.col_indices(v);
        proof {
            lemma_col_sorted(m, v as int);
        }
        let mut k: usize = 0;
        while k < checks.len()
            invariant
                self.wf(),
                config == self.lrbp_config,
                config.dynamic_wf(self.bp_decoder@.config.one()),
                m == self.bp_decoder@.matrix,
                checks@ == m.col(v as int),
                forall|a: int| 0 <= a < checks.len() ==> checks[a] < m.rows,
                earlier == (DynState { bp: self.bp_decoder@, shown: before, counts: counts@ }),
                later == (DynState { bp: self.bp_decoder@, shown: shown@, counts: counts@ }),
                dyn_wf(later, usize::MAX as nat),
                scores.len() == m.rows,
                k <= checks.len(),
                forall|c: int|
                    0 <= c < m.rows ==> (#[trigger] scores[c]) == config.score(earlier, c)
                        || scores[c] == config.score(later, c),
                forall|c: int|
                    0 <= c < m.rows && !checks@.contains(c as usize) ==> (#[trigger] scores[c])
                        == config.score(earlier, c),
                forall|a: int|
                    0 <= a < k ==> scores[(#[trigger] checks[a]) as int] == config.score(
                        later,
                        checks[a] as int,
                    ),
            decreases checks.len() - k,
        {
            let c: usize = checks[k];
            scores.set(c, self.check_priority_score(shown, counts, c));
            assert(checks@.contains(c));
            k += 1;
        }
        proof {
            assert forall|c: int| 0 <= c < m.rows implies (#[trigger] scores[c]) == config.score(
                later,
                c,
            ) by {
                lemma_entry_col(m, c, v as int);
                if checks@.contains(c as usize) {
                    let a = checks@.index_of(c as usize);
                    assert(checks[a] == c);
                } else {
                    assert(!m.row(c).contains(v)) by {
                        if m.row(c).contains(v) {
                            let j = m.row(c).index_of(v);
                            assert(m.row(c)[j] == v as int);
                            assert(m.entry(c, v as int));
                            let a = choose|a: int|
                                0 <= a < m.col(v as int).len() && #[trigger] m.col(v as int)[a]
                                    == c;
                            assert(checks@[a] == c as usize);
                        }
                    }
                    lemma_row_sorted(m, c);
                    lemma_certain_elsewhere(
                        config,
                        before,
                        m.row(c),
                        m.row(c).len(),
                        self.bp_decoder@.config.one(),
                        v,
                        shown@[v as int],
                    );
                }
            }
        }
    }

    /// The check that is updated next.
    fn select_check(&self, scores: &Vec<i128>, counts: &Vec<usize>, Ghost(s): Ghost<DynState>) -> (r:
        Option<usize>)
        requires
            scored(self.lrbp_config, s, scores@),
            counts@ == s.counts,
            counts.len() == s.bp.matrix.rows,
        ensures
            match r {
                Some(c) => {
                    &&& c < counts.len()
                    &&& self.lrbp_config.next_below(s, s.bp.matrix.rows) == Some(c as int)
                },
                None => self.lrbp_config.next_below(s, s.bp.matrix.rows) is None,
            },
    {
        let all: bool = match self.lrbp_config.dyn_mode {
            DynMode::EBP => false,
            DynMode::PEBP => true,
        };
        let mut best: Option<usize> = None;
        let mut c: usize = 0;
        while c < counts.len()
            invariant
                scored(self.lrbp_config, s, scores@),
                counts@ == s.counts,
                counts.len() == s.bp.matrix.rows,
                all == (self.lrbp_config.dyn_mode is PEBP),
                c <= counts.len(),
                match best {
                    Some(b) => {
                        &&& b < c
                        &&& self.lrbp_config.next_below(s, c as nat) == Some(b as int)
                    },
                    None => self.lrbp_config.next_below(s, c as nat) is None,
                },
            decreases counts.len() - c,
        {
            assert(scores[c as int] == self.lrbp_config.score(s, c as int));
            if all || counts[c] == 0 {
                let take: bool = match best {
                    Some(b) => {
                        assert(scores[b as int] == self.lrbp_config.score(s, b as int));
                        scores[c] <= scores[b]
                    },
                    None => true,
                };
                if take {
                    best = Some(c);
                }
            }
            c += 1;
        }
        best
    }

    /// Check `c` sends new messages and its variables answer.
    fn update_check(
        &mut self,
        detectors: &Vec<Bit>,
        coins: &Vec<bool>,
        c: usize,
        shown: &mut Vec<i64>,
        counts: &mut Vec<usize>,
        scores: &mut Vec<i128>,
        Ghost(n): Ghost<nat>,
        Ghost(s): Ghost<DynState>,
    )
        requires
            old(self).wf(),
            old(self).lrbp_config.dynamic_wf(old(self).bp_decoder@.config.one()),
            detectors.len() == old(self).bp_decoder@.matrix.rows,
            c < old(self).bp_decoder@.matrix.rows,
            s == (DynState {
                bp: old(self).bp_decoder@,
                shown: old(shown)@,
                counts: old(counts)@,
            }),
            dyn_wf(s, n),
            n < usize::MAX,
            scored(old(self).lrbp_config, s, old(scores)@),
        ensures
            final(self).wf(),
            final(self).lrbp_config == old(self).lrbp_config,
            final(self).bp_decoder@.matrix == old(self).bp_decoder@.matrix,
            final(self).bp_decoder@.config == old(self).bp_decoder@.config,
            final(self).bp_decoder@.iteration == old(self).bp_decoder@.iteration,
            ({
                let next = old(self).lrbp_config.updated(s, detectors@, coins@, c as int);
                &&& next == (DynState {
                    bp: final(self).bp_decoder@,
                    shown: final(shown)@,
                    counts: final(counts)@,
                })
                &&& dyn_wf(next, n + 1)
                &&& scored(old(self).lrbp_config, next, final(scores)@)
            }),
    {
        let ghost d = self.bp_decoder@;
        let ghost config = self.lrbp_config;
        let ghost m = d.matrix;
        let row: Vec<usize> = self.bp_decoder.variable_neighbors(c);
        proof {
            lemma_row_sorted(m, c as int);
        }
        self.bp_decoder.run_check_to_variable_update_for_check(detectors, c);
        let ghost sent = DynState { bp: d.check_updated(detectors@, c as int), ..s };
        proof {
            assert forall|k: int| 0 <= k < scores.len() implies (#[trigger] scores[k])
                == config.score(sent, k) by {
                assert(scores[k] == config.score(s, k));
            }
        }
        let mut k: usize = 0;
        while k < row.len()
            invariant
                self.wf(),
                self.lrbp_config == config,
                config.dynamic_wf(d.config.one()),
                self.bp_decoder@.matrix == m,
                self.bp_decoder@.config == d.config,
                self.bp_decoder@.iteration == d.iteration,
                row@ == m.row(c as int),
                forall|a: int| 0 <= a < row.len() ==> row[a] < m.cols,
                counts@ == s.counts,
                n < usize::MAX,
                k <= row.len(),
                sent.counts == s.counts,
                config.shown_after(sent, coins@, row@, k as nat) == (DynState {
                    bp: self.bp_decoder@,
                    shown: shown@,
                    counts: counts@,
                }),
                dyn_wf(
                    (DynState { bp: self.bp_decoder@, shown: shown@, counts: counts@ }),
                    n,
                ),
                scored(
                    config,
                    (DynState { bp: self.bp_decoder@, shown: shown@, counts: counts@ }),
                    scores@,
                ),
            decreases row.len() - k,
        {
            let v: usize = row[k];
            let ghost before = shown@;
            let ghost here = DynState { bp: self.bp_decoder@, shown: shown@, counts: counts@ };
            self.bp_decoder.run_variable_to_check_update_for_variable(coins, v);
            let ghost answered = DynState { bp: self.bp_decoder@, ..here };
            proof {
                assert forall|j: int| 0 <= j < scores.len() implies (#[trigger] scores[j])
                    == config.score(answered, j) by {
                    assert(scores[j] == config.score(here, j));
                }
            }
            shown.set(v, self.bp_decoder.posterior_ratios[v]);
            assert(shown@ =~= before.update(v as int, self.bp_decoder@.posterior[v as int]));
            self.rescore(shown, counts, v, scores, Ghost(before));
            k += 1;
        }
        let ghost after = DynState { bp: self.bp_decoder@, shown: shown@, counts: counts@ };
        counts.set(c, counts[c] + 1);
        let ghost next = DynState { bp: self.bp_decoder@, shown: shown@, counts: counts@ };
        assert(next =~= config.updated(s, detectors@, coins@, c as int));
        let score: i128 = self.check_priority_score(shown, counts, c);
        scores.set(c, score);
        proof {
            assert forall|j: int| 0 <= j < scores.len() implies (#[trigger] scores[j])
                == config.score(next, j) by {
                if j != c {
                    assert(config.score(next, j) == config.score(after, j));
                }
            }
        }
    }

    /// One sweep of a dynamic schedule: whether the decoding explains the detectors.
    pub fn run_dyn_sweep(&mut self, detectors: &Vec<Bit>, coins: &Vec<Vec<bool>>) -> (r: bool)
        requires
            old(self).wf(),
            old(self).lrbp_config.dynamic_wf(old(self).bp_decoder@.config.one()),
            detectors.len() == old(self).bp_decoder@.matrix.rows,
        ensures
            final(self).wf(),
            final(self).lrbp_config == old(self).lrbp_config,
            final(self).bp_decoder@ == old(self).lrbp_config.swept(
                old(self).bp_decoder@,
                detectors@,
                coins@,
            ),
            final(self).bp_decoder@.matrix == old(self).bp_decoder@.matrix,
            final(self).bp_decoder@.config == old(self).bp_decoder@.config,
            final(self).bp_decoder@.iteration == old(self).bp_decoder@.iteration,
            r == (old(self).bp_decoder@.matrix.rows > 0 && final(self).bp_decoder@.converged(
                detectors@,
            )),
    {
        let ghost d = self.bp_decoder@;
        let ghost config = self.lrbp_config;
        let rows: usize = self.bp_decoder.check_matrix.rows;
        if rows == 0 {
            return false;
        }
        let t: usize = self.bp_decoder.current_iteration;
        let ghost base = (d.iteration * d.matrix.rows) as int;
        let mut shown: Vec<i64> = self.bp_decoder.posterior_ratios.clone();
        let mut counts: Vec<usize> = vec![0; rows];
        let mut scores: Vec<i128> = Vec::new();
        let ghost mut s = DynState { bp: d, shown: shown@, counts: counts@ };
        assert(counts@ =~= Seq::new(d.matrix.rows, |c: int| 0usize));
        while scores.len() < rows
            invariant
                self.wf(),
                self.lrbp_config == config,
                self.bp_decoder@ == d,
                config.dynamic_wf(d.config.one()),
                rows == d.matrix.rows,
                s == (DynState { bp: d, shown: shown@, counts: counts@ }),
                dyn_wf(s, 0),
                scores.len() <= rows,
                forall|c: int| 0 <= c < scores.len() ==> (#[trigger] scores[c]) == config.score(s, c),
            decreases rows - scores.len(),
        {
            let score: i128 = self.check_priority_score(&shown, &counts, scores.len());
            scores.push(score);
        }
        let ghost all = config.sweep(s, detectors@, coins@, base, d.matrix.rows);
        let mut k: usize = 0;
        let mut done: bool = false;
        while k < rows && !done
            invariant
                self.wf(),
                self.lrbp_config == config,
                config.dynamic_wf(d.config.one()),
                rows == d.matrix.rows,
                rows < usize::MAX,
                detectors.len() == rows,
                base == t * rows,
                self.bp_decoder@.matrix == d.matrix,
                self.bp_decoder@.config == d.config,
                self.bp_decoder@.iteration == d.iteration,
                s == (DynState { bp: self.bp_decoder@, shown: shown@, counts: counts@ }),
                k <= rows,
                dyn_wf(s, k as nat),
                scored(config, s, scores@),
                all == (if done {
                    s
                } else {
                    config.sweep(s, detectors@, coins@, base + k, (rows - k) as nat)
                }),
            decreases rows - k + (if done {
                0int
            } else {
                1
            }),
        {
            match self.select_check(&scores, &counts, Ghost(s)) {
                Some(c) => {
                    let row: Vec<bool> = row_of_coins(coins, t, rows, k);
                    self.update_check(
                        detectors,
                        &row,
                        c,
                        &mut shown,
                        &mut counts,
                        &mut scores,
                        Ghost(k as nat),
                        Ghost(s),
                    );
                    proof {
                        s = config.updated(s, detectors@, row@, c as int);
                    }
                    k += 1;
                },
                None => {
                    done = true;
                },
            }
        }
        self.bp_decoder.recompute_hard_decision();
        let decoded: Vec<Bit> = self.bp_decoder.compute_decoded_detectors();
        self.bp_decoder.check_convergence(detectors, &decoded)
    }

    /// A leg with a dynamic schedule.
    pub fn run_dyn_leg(&mut self, detectors: &Vec<Bit>, coins: &Vec<Vec<bool>>) -> (r: DecodeResult)
        requires
            old(self).wf(),
            old(self).bp_decoder@.iteration == 0,
            old(self).lrbp_config.dynamic_wf(old(self).bp_decoder@.config.one()),
            detectors.len() == old(self).bp_decoder@.matrix.rows,
        ensures
            final(self).wf(),
            final(self).lrbp_config == old(self).lrbp_config,
            final(self).bp_decoder@ == old(self).lrbp_config.sweeps(
                old(self).bp_decoder@,
                detectors@,
                coins@,
                old(self).lrbp_config.t_dyn as nat,
            ).0,
            r@ == old(self).lrbp_config.dynamic_result(
                old(self).bp_decoder@,
                detectors@,
                coins@,
            ),
            r.success ==> old(self).bp_decoder@.matrix.mul_mod2(r.decoding@) == detectors@,
    {
        let ghost d = self.bp_decoder@;
        let ghost config = self.lrbp_config;
        let t_dyn: usize = self.lrbp_config.t_dyn;
        let ghost all = config.sweeps(d, detectors@, coins@, t_dyn as nat);
        let mut success: bool = false;
        let mut i: usize = 0;
        while i < t_dyn && !success
            invariant
                self.wf(),
                self.lrbp_config == config,
                t_dyn == config.t_dyn,
                config.dynamic_wf(d.config.one()),
                self.bp_decoder@.matrix == d.matrix,
                self.bp_decoder@.config == d.config,
                detectors.len() == d.matrix.rows,
                i <= t_dyn,
                self.bp_decoder@.iteration == (if success {
                    i - 1
                } else {
                    i as int
                }),
                success ==> self.bp_decoder@.converged(detectors@),
                all == (if success {
                    (self.bp_decoder@, true)
                } else {
                    config.sweeps(self.bp_decoder@, detectors@, coins@, (t_dyn - i) as nat)
                }),
            decreases t_dyn - i + (if success {
                0int
            } else {
                1
            }),
        {
            success = self.run_dyn_sweep(detectors, coins);
            if !success {
                self.bp_decoder.current_iteration = self.bp_decoder.current_iteration + 1;
            }
            i += 1;
        }
        let decoded: Vec<Bit> = self.bp_decoder.compute_decoded_detectors();
        let mut r: DecodeResult = self.bp_decoder.build_result(success, decoded, t_dyn);
        r.iterations = i;
        assert(r@ =~= config.dynamic_result(d, detectors@, coins@));
        r
    }

    /// Starts a leg with a dynamic schedule from the marginals `carry_marginal`, with one
    /// memory strength for all variables.
    pub fn init_dyn_leg(&mut self, carry_marginal: &Vec<i64>, gamma: i64)
        requires
            old(self).wf(),
            carry_marginal.len() == old(self).bp_decoder@.cols(),
            forall|v: int| 0 <= v < carry_marginal.len() ==> carry_marginal[v] > i64::MIN,
            is_gain(gamma),
        ensures
            final(self).wf(),
            final(self).lrbp_config == old(self).lrbp_config,
            final(self).bp_decoder@ == (BpModel {
                memory: Seq::new(old(self).bp_decoder@.cols(), |v: int| gamma),
                ..(BpModel { posterior: carry_marginal@, ..old(self).bp_decoder@ }).reseeded()
            }),
    {
        let ghost d = self.bp_decoder@;
        self.bp_decoder.current_iteration = 0;
        self.bp_decoder.set_log_prior_ratio_fixed(carry_marginal.clone());
        self.bp_decoder.set_posterior_ratios(carry_marginal.clone());
        self.bp_decoder.initialize_check_to_variable();
        self.bp_decoder.initialize_variable_to_check();
        let gammas: Vec<i64> = vec![gamma; self.bp_decoder.check_matrix.cols];
        assert(gammas@ =~= Seq::new(d.cols(), |v: int| gamma));
        self.bp_decoder.set_memory_strengths_fixed(gammas);
        assert(self.bp_decoder@ =~= (BpModel {
            memory: Seq::new(d.cols(), |v: int| gamma),
            ..(BpModel { posterior: carry_marginal@, ..d }).reseeded()
        }));
    }
}

/// The number of checks below `n` that were not updated.
pub open spec fn waiting(counts: Seq<usize>, n: nat) -> nat
    decreases n,
{
    if n == 0 {
        0
    } else {
        waiting(counts, (n - 1) as nat) + if counts[n - 1] == 0 {
            1nat
        } else {
            0
        }
    }
}

proof fn lemma_waiting_update(counts: Seq<usize>, n: nat, c: int)
    requires
        n <= counts.len(),
        0 <= c < counts.len(),
        counts[c] == 0,
    ensures
        waiting(counts.update(c, 1), n) == waiting(counts, n) - if c < n {
            1int
        } else {
            0
        },
    decreases n,
{
    if n > 0 {
        lemma_waiting_update(counts, (n - 1) as nat, c);
    }
}

proof fn lemma_next_below(config: LRBPDecoderConfig, s: DynState, n: nat)
    requires
        config.dyn_mode is EBP,
        n <= s.counts.len(),
    ensures
        match config.next_below(s, n) {
            Some(c) => 0 <= c < n && s.counts[c] == 0,
            None => waiting(s.counts, n) == 0,
        },
        waiting(s.counts, n) == 0 ==> forall|c: int| 0 <= c < n ==> (#[trigger] s.counts[c]) != 0,
    decreases n,
{
    if n > 0 {
        lemma_next_below(config, s, (n - 1) as nat);
    }
}

proof fn lemma_shown_keeps(
    config: LRBPDecoderConfig,
    s: DynState,
    coins: Seq<bool>,
    variables: Seq<usize>,
    n: nat,
)
    ensures
        config.shown_after(s, coins, variables, n).counts == s.counts,
        config.shown_after(s, coins, variables, n).bp.matrix == s.bp.matrix,
    decreases n,
{
    if n > 0 {
        lemma_shown_keeps(config, s, coins, variables, (n - 1) as nat);
    }
}

proof fn lemma_sweep_counts(
    config: LRBPDecoderConfig,
    s: DynState,
    det: Seq<Bit>,
    coins: Seq<Vec<bool>>,
    base: int,
    n: nat,
)
    requires
        config.dyn_mode is EBP,
        s.counts.len() == s.bp.matrix.rows,
        forall|c: int| 0 <= c < s.counts.len() ==> (#[trigger] s.counts[c]) <= 1,
        waiting(s.counts, s.counts.len()) <= n,
    ensures
        ({
            let all = config.sweep(s, det, coins, base, n);
            &&& all.counts.len() == s.counts.len()
            &&& forall|c: int| 0 <= c < all.counts.len() ==> (#[trigger] all.counts[c]) == 1
        }),
    decreases n,
{
    lemma_next_below(config, s, s.counts.len());
    if n > 0 {
        match config.next_below(s, s.bp.matrix.rows) {
            Some(c) => {
                let row = s.bp.matrix.row(c);
                let sent = DynState { bp: s.bp.check_updated(det, c), ..s };
                lemma_shown_keeps(config, sent, coins_at(coins, base), row, row.len());
                lemma_waiting_update(s.counts, s.counts.len(), c);
                lemma_sweep_counts(
                    config,
                    config.updated(s, det, coins_at(coins, base), c),
                    det,
                    coins,
                    base + 1,
                    (n - 1) as nat,
                );
            },
            None => {},
        }
    }
}

/// A sweep without penalty updates every check exactly once.
pub proof fn law_sweep_updates_all(
    config: LRBPDecoderConfig,
    d: BpModel,
    det: Seq<Bit>,
    coins: Seq<Vec<bool>>,
    base: int,
)
    requires
        config.dyn_mode is EBP,
    ensures
        ({
            let s = DynState {
                bp: d,
                shown: d.posterior,
                counts: Seq::new(d.matrix.rows, |c: int| 0usize),
            };
            let all = config.sweep(s, det, coins, base, d.matrix.rows);
            all.counts == Seq::new(d.matrix.rows, |c: int| 1usize)
        }),
{
    let s = DynState {
        bp: d,
        shown: d.posterior,
        counts: Seq::new(d.matrix.rows, |c: int| 0usize),
    };
    lemma_waiting_bound(s.counts, s.counts.len());
    lemma_sweep_counts(config, s, det, coins, base, d.matrix.rows);
    let all = config.sweep(s, det, coins, base, d.matrix.rows);
    assert(all.counts =~= Seq::new(d.matrix.rows, |c: int| 1usize));
}

proof fn lemma_waiting_bound(counts: Seq<usize>, n: nat)
    ensures
        waiting(counts, n) <= n,
    decreases n,
{
    if n > 0 {
        lemma_waiting_bound(counts, (n - 1) as nat);
    }
}

} // verus!
