//! Iterations with friction and kicks: the messages of a check that oscillate are damped,
//! turned round by chance, or left as they were.

use vstd::prelude::*;

use crate::arith::{
    abs, bound, divide, lemma_product_bound, lemma_shrunk_bound, lemma_sum_bound, lemma_sum_push, narrow,
    sum, trunc_div, GAIN_LIMIT,
};
use crate::decoder::DecodeResult;
use crate::logistic::{logistic, logistic_at};
use crate::lrbp::legs::{residual, syndrome_from_hard_decision, LRBPDecoder, LRBPDecoderConfig};
use crate::matrix::Bit;
use crate::min_sum::BpModel;

verus! {

/// The state of a leg: the decoder, and the last messages of each edge, the newest last.
#[verifier::ext_equal]
pub struct LangevinState {
    pub bp: BpModel,
    pub history: Seq<Seq<i64>>,
}

/// What was drawn for one iteration.
#[derive(Clone, Debug)]
pub struct LangevinDraws {
    /// A waiting time for each edge, drawn from the exponential distribution of mean one.
    pub waits: Vec<i64>,
    /// A coin for each check, which tells whether it keeps its messages.
    pub dropouts: Vec<bool>,
    /// A coin for each variable, which counts where messages may be dropped.
    pub coins: Vec<bool>,
}

/// The history of an edge after the message `raw`: its last `window` messages.
pub open spec fn remembered(history: Seq<i64>, raw: i64, window: nat) -> Seq<i64> {
    let longer = history.push(raw);
    if longer.len() > window {
        longer.skip(longer.len() - window)
    } else {
        longer
    }
}

/// The oscillation of an edge: the magnitude of the sum of its last messages.
pub open spec fn oscillation(history: Seq<i64>) -> int {
    bound(abs(sum(history)), i64::MAX as int)
}

/// The waiting time of edge `f`; none past the end.
pub open spec fn wait_at(waits: Seq<i64>, f: int) -> int {
    if f < waits.len() {
        waits[f] as int
    } else {
        0
    }
}

/// The coin of check `c`; it keeps nothing past the end.
pub open spec fn dropout_at(dropouts: Seq<bool>, c: int) -> bool {
    c < dropouts.len() && dropouts[c]
}

impl LRBPDecoderConfig {
    /// The parameters of friction and kicks are in range, where the unit is `one`.
    pub open spec fn langevin_wf(self, one: int) -> bool {
        &&& -2 * GAIN_LIMIT <= self.friction_slope <= 2 * GAIN_LIMIT
        &&& self.logistic_wf(one)
    }

    /// The friction of an edge with the given oscillation: a logistic curve.
    pub open spec fn friction(self, osc: int, one: int) -> int {
        let x = trunc_div(self.friction_slope * (osc - self.friction_shift), one);
        logistic(
            self.logistic@,
            self.logistic_per_unit as int,
            one,
            bound(x, i64::MAX as int),
        )
    }

    /// The number of messages of an edge that are remembered.
    pub open spec fn window(self) -> nat {
        if self.osc_window == 0 {
            1
        } else {
            self.osc_window as nat
        }
    }

    /// The temperature of kicks.
    pub open spec fn temperature(self) -> int {
        if self.tau < 1 {
            1
        } else {
            self.tau as int
        }
    }

    /// Whether an edge with the given oscillation is kicked in the iteration after `t`
    /// complete ones: its waiting time is longer than the oscillation over the temperature,
    /// which falls with the iterations.
    pub open spec fn kicks(self, osc: int, wait: int, t: nat, one: int) -> bool {
        self.temperature() * wait > osc * (t + 1) * one
    }

    /// The history of all edges after the messages of `d`.
    pub open spec fn histories(self, history: Seq<Seq<i64>>, d: BpModel) -> Seq<Seq<i64>> {
        Seq::new(
            history.len(),
            |f: int| remembered(history[f], d.c2v[f], self.window()),
        )
    }

    /// The message of edge `f` with friction, and turned round where the edge is kicked.
    pub open spec fn rubbed(
        self,
        history: Seq<i64>,
        d: BpModel,
        violated: bool,
        wait: int,
        f: int,
    ) -> int {
        let osc = oscillation(history);
        let one = d.config.one();
        let damped = trunc_div(self.friction(osc, one) * d.c2v[f], one);
        if violated && self.kicks(osc, wait, d.iteration, one) {
            -damped
        } else {
            damped
        }
    }

    /// The state after the messages of all edges were rubbed.
    pub open spec fn modified(
        self,
        s: LangevinState,
        violations: Seq<Bit>,
        waits: Seq<i64>,
    ) -> LangevinState {
        let history = self.histories(s.history, s.bp);
        LangevinState {
            bp: BpModel {
                c2v: Seq::new(
                    s.bp.matrix.nnz(),
                    |f: int|
                        self.rubbed(
                            history[f],
                            s.bp,
                            violations[s.bp.matrix.col_idx[f] as int] != 0,
                            wait_at(waits, f),
                            f,
                        ) as i64,
                ),
                ..s.bp
            },
            history,
        }
    }

    /// The state after checks that are not satisfied kept their `previous` messages where
    /// their coin says so.
    pub open spec fn kept(
        self,
        s: LangevinState,
        violations: Seq<Bit>,
        dropouts: Seq<bool>,
        previous: Seq<i64>,
    ) -> LangevinState {
        LangevinState {
            bp: BpModel {
                c2v: Seq::new(
                    s.bp.matrix.nnz(),
                    |f: int|
                        {
                            let c = s.bp.matrix.col_idx[f] as int;
                            if violations[c] != 0 && dropout_at(dropouts, c) {
                                previous[f]
                            } else {
                                s.bp.c2v[f]
                            }
                        },
                ),
                ..s.bp
            },
            history: self.histories(s.history, s.bp),
        }
    }

    /// One iteration with friction and kicks.
    pub open spec fn langevin_step(
        self,
        s: LangevinState,
        det: Seq<Bit>,
        draws: LangevinDraws,
    ) -> LangevinState {
        let violations = residual(s.bp.matrix, det, s.bp.decoding);
        let sent = LangevinState { bp: s.bp.check_step(det), ..s };
        let next = self.modified(sent, violations, draws.waits@);
        LangevinState { bp: next.bp.variable_step(draws.coins@).decided(), ..next }
    }

    /// One iteration in which checks may keep their messages.
    pub open spec fn dropout_step(
        self,
        s: LangevinState,
        det: Seq<Bit>,
        draws: LangevinDraws,
    ) -> LangevinState {
        let violations = residual(s.bp.matrix, det, s.bp.decoding);
        let sent = LangevinState { bp: s.bp.check_step(det), ..s };
        let next = self.kept(sent, violations, draws.dropouts@, s.bp.c2v);
        LangevinState { bp: next.bp.variable_step(draws.coins@).decided(), ..next }
    }

    /// Iterating with the given draws until the decoding explains the detectors. The last
    /// iteration counts only where it does not explain them.
    pub open spec fn langevin_settle(
        self,
        s: LangevinState,
        det: Seq<Bit>,
        draws: Seq<LangevinDraws>,
        n: nat,
    ) -> LangevinState
        decreases n,
    {
        if n == 0 {
            s
        } else {
            let next = self.dropout_step(s, det, draws[s.bp.iteration as int]);
            if next.bp.converged(det) {
                next
            } else {
                self.langevin_settle(
                    LangevinState { bp: next.bp.counted(), ..next },
                    det,
                    draws,
                    (n - 1) as nat,
                )
            }
        }
    }
}

/// What the histories hold.
pub open spec fn histories_of(history: Seq<Vec<i64>>) -> Seq<Seq<i64>> {
    Seq::new(history.len(), |f: int| history[f]@)
}

/// Adds a message to the history of an edge, of which the last `window` ones stay.
fn remember(history: &mut Vec<i64>, raw: i64, window: usize)
    requires
        window > 0,
    ensures
        final(history)@ == remembered(old(history)@, raw, window as nat),
{
    history.push(raw);
    let ghost longer = history@;
    let ghost mut gone: int = 0;
    assert(history@ =~= longer.skip(0));
    while history.len() > window
        invariant
            window > 0,
            0 <= gone <= longer.len(),
            history@ == longer.skip(gone),
            gone > 0 ==> longer.len() - gone >= window,
            gone == 0 ==> history@ == longer,
        decreases history.len(),
    {
        history.remove(0);
        proof {
            gone = gone + 1;
            assert(history@ =~= longer.skip(gone));
        }
    }
    assert(history@ =~= remembered(old(history)@, raw, window as nat));
}

/// The oscillation of an edge.
fn oscillation_of(history: &Vec<i64>) -> (r: i64)
    ensures
        r == oscillation(history@),
        r >= 0,
{
    let mut total: i128 = 0;
    let mut i: usize = 0;
    assert(history@.take(0) =~= Seq::empty());
    while i < history.len()
        invariant
            i <= history.len(),
            total == sum(history@.take(i as int)),
        decreases history.len() - i,
    {
        proof {
            let shorter = history@.take(i as int);
            let longer = history@.take(i + 1);
            assert(longer =~= shorter.push(history@[i as int]));
            lemma_sum_push(shorter, history@[i as int]);
            lemma_sum_bound(shorter);
            lemma_sum_bound(longer);
            assert(shorter.len() * 0x8000_0000_0000_0000 <= 0xffff_ffff_ffff_ffff
                * 0x8000_0000_0000_0000) by (nonlinear_arith)
                requires
                    shorter.len() <= 0xffff_ffff_ffff_ffff,
            ;
            assert(longer.len() * 0x8000_0000_0000_0000 <= 0xffff_ffff_ffff_ffff
                * 0x8000_0000_0000_0000) by (nonlinear_arith)
                requires
                    longer.len() <= 0xffff_ffff_ffff_ffff,
            ;
        }
        total = total + (history[i] as i128);
        i += 1;
    }
    proof {
        assert(history@.take(history@.len() as int) =~= history@);
        lemma_sum_bound(history@);
        let n = history@.len();
        assert(n * 0x8000_0000_0000_0000 <= 0xffff_ffff_ffff_ffff * 0x8000_0000_0000_0000)
            by (nonlinear_arith)
            requires
                n <= 0xffff_ffff_ffff_ffff,
        ;
    }
    let size: i128 = if total < 0 {
        -total
    } else {
        total
    };
    narrow(size, i64::MAX)
}

/// Comparing a number with a product of which one factor is divided out.
proof fn lemma_exceeds(a: int, x: int, one: int)
    requires
        a >= 1,
        x >= 0,
        one >= 1,
    ensures
        (a > x * one) == ((a - 1) / one >= x),
{
    let q = (a - 1) / one;
    vstd::arithmetic::div_mod::lemma_fundamental_div_mod(a - 1, one);
    let r = (a - 1) % one;
    assert(0 <= r < one);
    assert(a - 1 == one * q + r);
    if q >= x {
        assert(one * q >= x * one) by (nonlinear_arith)
            requires
                q >= x,
                one >= 1,
        ;
    } else {
        assert(one * (q + 1) <= x * one) by (nonlinear_arith)
            requires
                q + 1 <= x,
                one >= 1,
        ;
        assert(one * (q + 1) == one * q + one) by (nonlinear_arith);
    }
}

impl LRBPDecoder {
    /// The friction of an edge with the given oscillation.
    fn friction_of(&self, osc: i64) -> (r: i64)
        requires
            self.wf(),
            self.lrbp_config.langevin_wf(self.bp_decoder@.config.one()),
            osc >= 0,
        ensures
            r == self.lrbp_config.friction(osc as int, self.bp_decoder@.config.one()),
            0 <= r <= self.bp_decoder@.config.one(),
    {
        let one: i64 = self.bp_decoder.config.unit();
        let slope: i64 = self.lrbp_config.friction_slope;
        let rise: i128 = (osc as i128) - (self.lrbp_config.friction_shift as i128);
        proof {
            lemma_product_bound(
                slope as int,
                rise as int,
                0x4000_0000_0000_0000,
                0xffff_ffff_ffff_ffff,
            );
        }
        let x: i128 = divide((slope as i128) * rise, one);
        let argument: i64 = if x > i64::MAX as i128 {
            i64::MAX
        } else if x < -(i64::MAX as i128) {
            -i64::MAX
        } else {
            x as i64
        };
        logistic_at(
            &self.lrbp_config.logistic,
            self.lrbp_config.logistic_per_unit,
            one,
            argument,
        )
    }

    /// Whether an edge is kicked.
    fn is_kicked(&self, osc: i64, wait: i64, t: usize) -> (r: bool)
        requires
            self.wf(),
            osc >= 0,
        ensures
            r == self.lrbp_config.kicks(
                osc as int,
                wait as int,
                t as nat,
                self.bp_decoder@.config.one(),
            ),
    {
        let one: i64 = self.bp_decoder.config.unit();
        let tau: i64 = if self.lrbp_config.tau < 1 {
            1
        } else {
            self.lrbp_config.tau
        };
        let ghost x = osc * (t + 1);
        proof {
            assert(0 <= x <= 0x7fff_ffff_ffff_ffff * 0x1_0000_0000_0000_0000) by (nonlinear_arith)
                requires
                    x == osc * (t + 1),
                    0 <= osc <= 0x7fff_ffff_ffff_ffff,
                    0 <= t <= 0xffff_ffff_ffff_ffff,
            ;
            assert(x * one >= 0) by (nonlinear_arith)
                requires
                    x >= 0,
                    one >= 1,
            ;
        }
        if wait <= 0 {
            proof {
                assert(tau * wait <= 0) by (nonlinear_arith)
                    requires
                        tau >= 1,
                        wait <= 0,
                ;
            }
            return false;
        }
        proof {
            assert(1 <= tau * wait <= 0x7fff_ffff_ffff_ffff * 0x7fff_ffff_ffff_ffff)
                by (nonlinear_arith)
                requires
                    1 <= tau <= 0x7fff_ffff_ffff_ffff,
                    1 <= wait <= 0x7fff_ffff_ffff_ffff,
            ;
            lemma_exceeds(tau * wait, x, one as int);
        }
        let product: u128 = (tau as u128) * (wait as u128);
        let needed: u128 = (osc as u128) * ((t as u128) + 1);
        (product - 1) / (one as u128) >= needed
    }

    /// Rubs the messages of all edges and kicks some of unsatisfied checks. The histories are
    /// carried on.
    pub fn apply_langevin_modifier(
        &mut self,
        history: &mut Vec<Vec<i64>>,
        parity_violations: &Vec<Bit>,
        waits: &Vec<i64>,
    )
        requires
            old(self).wf(),
            old(self).lrbp_config.langevin_wf(old(self).bp_decoder@.config.one()),
            old(history).len() == old(self).bp_decoder@.matrix.nnz(),
            parity_violations.len() == old(self).bp_decoder@.matrix.rows,
        ensures
            final(self).wf(),
            final(self).lrbp_config == old(self).lrbp_config,
            (LangevinState {
                bp: final(self).bp_decoder@,
                history: histories_of(final(history)@),
            }) == old(self).lrbp_config.modified(
                (LangevinState {
                    bp: old(self).bp_decoder@,
                    history: histories_of(old(history)@),
                }),
                parity_violations@,
                waits@,
            ),
    {
        let ghost d = self.bp_decoder@;
        let ghost m = d.matrix;
        let ghost config = self.lrbp_config;
        let ghost s = LangevinState { bp: d, history: histories_of(history@) };
        let ghost all = config.modified(s, parity_violations@, waits@);
        let one: i64 = self.bp_decoder.config.unit();
        let t: usize = self.bp_decoder.current_iteration;
        let nnz: usize = self.bp_decoder.check_to_variable.len();
        let window: usize = if self.lrbp_config.osc_window == 0 {
            1
        } else {
            self.lrbp_config.osc_window
        };
        let mut out: Vec<i64> = Vec::new();
        while out.len() < nnz
            invariant
                self.wf(),
                self.lrbp_config == config,
                self.bp_decoder@ == d,
                m == d.matrix,
                config.langevin_wf(d.config.one()),
                one == d.config.one(),
                1 <= one <= GAIN_LIMIT,
                t == d.iteration,
                nnz == m.nnz(),
                window == config.window(),
                parity_violations.len() == m.rows,
                s.bp == d,
                s.history.len() == nnz,
                all == config.modified(s, parity_violations@, waits@),
                history.len() == nnz,
                out.len() <= nnz,
                forall|f: int|
                    0 <= f < out.len() ==> (#[trigger] out[f]) == all.bp.c2v[f] && out[f]
                        > i64::MIN,
                forall|f: int| 0 <= f < out.len() ==> (#[trigger] history[f])@ == all.history[f],
                forall|f: int| out.len() <= f < nnz ==> (#[trigger] history[f])@ == s.history[f],
            decreases nnz - out.len(),
        {
            let f: usize = out.len();
            let raw: i64 = self.bp_decoder.check_to_variable[f];
            let c: usize = self.bp_decoder.check_matrix.col_idx[f];
            remember(&mut history[f], raw, window);
            let osc: i64 = oscillation_of(&history[f]);
            let friction: i64 = self.friction_of(osc);
            proof {
                lemma_product_bound(
                    friction as int,
                    raw as int,
                    0x2000_0000_0000_0000,
                    0x7fff_ffff_ffff_ffff,
                );
                lemma_shrunk_bound(friction as int, raw as int, one as int);
            }
            let damped: i64 = divide((friction as i128) * (raw as i128), one) as i64;
            let wait: i64 = if f < waits.len() {
                waits[f]
            } else {
                0
            };
            let kicked: bool = parity_violations[c] != 0 && self.is_kicked(osc, wait, t);
            let message: i64 = if kicked {
                -damped
            } else {
                damped
            };
            proof {
                let one_f = config.rubbed(
                    all.history[f as int],
                    d,
                    parity_violations@[m.col_idx[f as int] as int] != 0,
                    wait_at(waits@, f as int),
                    f as int,
                );
                assert(history[f as int]@ == all.history[f as int]);
                assert(message == one_f);
            }
            out.push(message);
        }
        self.bp_decoder.check_to_variable = out;
        proof {
            assert(self.bp_decoder@.c2v =~= all.bp.c2v);
            assert(self.bp_decoder@ =~= all.bp);
            assert(histories_of(history@) =~= all.history);
        }
    }

    /// Lets unsatisfied checks keep their previous messages where their coin says so. The
    /// histories are carried on.
    pub fn apply_langevin_modifier_with_dropout(
        &mut self,
        history: &mut Vec<Vec<i64>>,
        parity_violations: &Vec<Bit>,
        dropouts: &Vec<bool>,
        previous_messages: &Vec<i64>,
    )
        requires
            old(self).wf(),
            old(history).len() == old(self).bp_decoder@.matrix.nnz(),
            parity_violations.len() == old(self).bp_decoder@.matrix.rows,
            previous_messages.len() == old(self).bp_decoder@.matrix.nnz(),
            forall|f: int| 0 <= f < previous_messages.len() ==> previous_messages[f] > i64::MIN,
        ensures
            final(self).wf(),
            final(self).lrbp_config == old(self).lrbp_config,
            (LangevinState {
                bp: final(self).bp_decoder@,
                history: histories_of(final(history)@),
            }) == old(self).lrbp_config.kept(
                (LangevinState {
                    bp: old(self).bp_decoder@,
                    history: histories_of(old(history)@),
                }),
                parity_violations@,
                dropouts@,
                previous_messages@,
            ),
    {
        let ghost d = self.bp_decoder@;
        let ghost m = d.matrix;
        let ghost config = self.lrbp_config;
        let ghost s = LangevinState { bp: d, history: histories_of(history@) };
        let ghost all = config.kept(s, parity_violations@, dropouts@, previous_messages@);
        let nnz: usize = self.bp_decoder.check_to_variable.len();
        let window: usize = if self.lrbp_config.osc_window == 0 {
            1
        } else {
            self.lrbp_config.osc_window
        };
        let mut out: Vec<i64> = Vec::new();
        while out.len() < nnz
            invariant
                self.wf(),
                self.lrbp_config == config,
                self.bp_decoder@ == d,
                m == d.matrix,
                nnz == m.nnz(),
                window == config.window(),
                parity_violations.len() == m.rows,
                previous_messages.len() == nnz,
                forall|f: int| 0 <= f < previous_messages.len() ==> previous_messages[f] > i64::MIN,
                s.bp == d,
                s.history.len() == nnz,
                all == config.kept(s, parity_violations@, dropouts@, previous_messages@),
                history.len() == nnz,
                out.len() <= nnz,
                forall|f: int|
                    0 <= f < out.len() ==> (#[trigger] out[f]) == all.bp.c2v[f] && out[f]
                        > i64::MIN,
                forall|f: int| 0 <= f < out.len() ==> (#[trigger] history[f])@ == all.history[f],
                forall|f: int| out.len() <= f < nnz ==> (#[trigger] history[f])@ == s.history[f],
            decreases nnz - out.len(),
        {
            let f: usize = out.len();
            let raw: i64 = self.bp_decoder.check_to_variable[f];
            let c: usize = self.bp_decoder.check_matrix.col_idx[f];
            remember(&mut history[f], raw, window);
            let keep: bool = parity_violations[c] != 0 && c < dropouts.len() && dropouts[c];
            out.push(
                if keep {
                    previous_messages[f]
                } else {
                    raw
                },
            );
        }
        self.bp_decoder.check_to_variable = out;
        proof {
            assert(self.bp_decoder@.c2v =~= all.bp.c2v);
            assert(self.bp_decoder@ =~= all.bp);
            assert(histories_of(history@) =~= all.history);
        }
    }

    /// Which checks the decoding leaves unsatisfied.
    pub fn parity_violations(&self, detectors: &Vec<Bit>) -> (r: Vec<Bit>)
        requires
            self.wf(),
            detectors.len() == self.bp_decoder@.matrix.rows,
        ensures
            r@ == residual(self.bp_decoder@.matrix, detectors@, self.bp_decoder@.decoding),
    {
        syndrome_from_hard_decision(
            &self.bp_decoder.check_matrix,
            detectors,
            &self.bp_decoder.decoding,
        )
    }

    /// One iteration with friction and kicks.
    pub fn run_langevin_iteration(
        &mut self,
        detectors: &Vec<Bit>,
        history: &mut Vec<Vec<i64>>,
        draws: &LangevinDraws,
    )
        requires
            old(self).wf(),
            old(self).lrbp_config.langevin_wf(old(self).bp_decoder@.config.one()),
            detectors.len() == old(self).bp_decoder@.matrix.rows,
            old(history).len() == old(self).bp_decoder@.matrix.nnz(),
        ensures
            final(self).wf(),
            final(self).lrbp_config == old(self).lrbp_config,
            (LangevinState {
                bp: final(self).bp_decoder@,
                history: histories_of(final(history)@),
            }) == old(self).lrbp_config.langevin_step(
                (LangevinState {
                    bp: old(self).bp_decoder@,
                    history: histories_of(old(history)@),
                }),
                detectors@,
                *draws,
            ),
    {
        let violations: Vec<Bit> = self.parity_violations(detectors);
        self.bp_decoder.run_check_to_variable_update(detectors);
        self.apply_langevin_modifier(history, &violations, &draws.waits);
        self.bp_decoder.run_variable_to_check_update(&draws.coins);
    }

    /// One iteration in which checks may keep their messages.
    pub fn run_langevin_iteration_with_dropout(
        &mut self,
        detectors: &Vec<Bit>,
        history: &mut Vec<Vec<i64>>,
        draws: &LangevinDraws,
    )
        requires
            old(self).wf(),
            detectors.len() == old(self).bp_decoder@.matrix.rows,
            old(history).len() == old(self).bp_decoder@.matrix.nnz(),
        ensures
            final(self).wf(),
            final(self).lrbp_config == old(self).lrbp_config,
            (LangevinState {
                bp: final(self).bp_decoder@,
                history: histories_of(final(history)@),
            }) == old(self).lrbp_config.dropout_step(
                (LangevinState {
                    bp: old(self).bp_decoder@,
                    history: histories_of(old(history)@),
                }),
                detectors@,
                *draws,
            ),
            final(history).len() == old(history).len(),
            final(self).bp_decoder@.matrix == old(self).bp_decoder@.matrix,
            final(self).bp_decoder@.config == old(self).bp_decoder@.config,
            final(self).bp_decoder@.iteration == old(self).bp_decoder@.iteration,
    {
        let ghost before = histories_of(history@);
        let violations: Vec<Bit> = self.parity_violations(detectors);
        let previous: Vec<i64> = self.bp_decoder.check_to_variable.clone();
        self.bp_decoder.run_check_to_variable_update(detectors);
        self.apply_langevin_modifier_with_dropout(
            history,
            &violations,
            &draws.dropouts,
            &previous,
        );
        assert(histories_of(history@).len() == before.len());
        self.bp_decoder.run_variable_to_check_update(&draws.coins);
    }

    /// A leg of at most `max_iter` iterations, ordinary ones or ones in which checks may keep
    /// their messages.
    pub fn decode_inner(
        &mut self,
        detectors: &Vec<Bit>,
        max_iter: usize,
        use_langevin: bool,
        history: &mut Vec<Vec<i64>>,
        draws: &Vec<LangevinDraws>,
        coins: &Vec<Vec<bool>>,
    ) -> (r: DecodeResult)
        requires
            old(self).wf(),
            old(self).bp_decoder@.iteration == 0,
            detectors.len() == old(self).bp_decoder@.matrix.rows,
            old(history).len() == old(self).bp_decoder@.matrix.nnz(),
            use_langevin ==> draws.len() >= max_iter,
        ensures
            final(self).wf(),
            final(self).lrbp_config == old(self).lrbp_config,
            use_langevin ==> (LangevinState {
                bp: final(self).bp_decoder@,
                history: histories_of(final(history)@),
            }) == old(self).lrbp_config.langevin_settle(
                (LangevinState {
                    bp: old(self).bp_decoder@,
                    history: histories_of(old(history)@),
                }),
                detectors@,
                draws@,
                max_iter as nat,
            ),
            !use_langevin ==> final(self).bp_decoder@ == old(self).bp_decoder@.settle(
                detectors@,
                coins@,
                max_iter as nat,
            ) && final(history)@ == old(history)@,
            r@ == final(self).bp_decoder@.leg_result(detectors@, max_iter as nat),
    {
        if !use_langevin {
            return self.run_standard_leg(detectors, coins, max_iter);
        }
        let ghost d = self.bp_decoder@;
        let ghost config = self.lrbp_config;
        let ghost start = LangevinState { bp: d, history: histories_of(history@) };
        let ghost all = config.langevin_settle(start, detectors@, draws@, max_iter as nat);
        let mut success: bool = false;
        let mut decoded: Vec<Bit> = self.bp_decoder.compute_decoded_detectors();
        let mut i: usize = 0;
        while i < max_iter && !success
            invariant
                self.wf(),
                self.lrbp_config == config,
                self.bp_decoder@.matrix == d.matrix,
                self.bp_decoder@.config == d.config,
                detectors.len() == d.matrix.rows,
                history.len() == d.matrix.nnz(),
                draws.len() >= max_iter,
                i <= max_iter,
                self.bp_decoder@.iteration == (if success {
                    i - 1
                } else {
                    i as int
                }),
                decoded@ == self.bp_decoder@.decoded_detectors(),
                i == 0 ==> !success,
                i > 0 ==> success == self.bp_decoder@.converged(detectors@),
                all == (if success {
                    LangevinState { bp: self.bp_decoder@, history: histories_of(history@) }
                } else {
                    config.langevin_settle(
                        LangevinState { bp: self.bp_decoder@, history: histories_of(history@) },
                        detectors@,
                        draws@,
                        (max_iter - i) as nat,
                    )
                }),
            decreases max_iter - i + (if success {
                0int
            } else {
                1
            }),
        {
            self.run_langevin_iteration_with_dropout(detectors, history, &draws[i]);
            decoded = self.bp_decoder.compute_decoded_detectors();
            success = self.bp_decoder.check_convergence(detectors, &decoded);
            if !success {
                self.bp_decoder.current_iteration = self.bp_decoder.current_iteration + 1;
            }
            i += 1;
        }
        if max_iter == 0 {
            success = self.bp_decoder.check_convergence(detectors, &decoded);
        }
        let mut r: DecodeResult = self.bp_decoder.build_result(success, decoded, max_iter);
        r.iterations = i;
        assert(r@ =~= self.bp_decoder@.leg_result(detectors@, max_iter as nat));
        r
    }
}

/// Forgets all messages.
pub fn clear_history(history: &mut Vec<Vec<i64>>)
    ensures
        histories_of(final(history)@) == Seq::new(
            old(history)@.len(),
            |f: int| Seq::<i64>::empty(),
        ),
{
    let n: usize = history.len();
    let mut out: Vec<Vec<i64>> = Vec::new();
    while out.len() < n
        invariant
            out.len() <= n,
            forall|f: int| 0 <= f < out.len() ==> (#[trigger] out[f])@ == Seq::<i64>::empty(),
        decreases n - out.len(),
    {
        out.push(Vec::new());
    }
    *history = out;
    assert(histories_of(history@) =~= Seq::new(n as nat, |f: int| Seq::<i64>::empty()));
}

} // verus!
