//! Decoding that also observes how the posteriors move: syndrome weight, bit changes, sign
//! changes, oscillation and stagnation by iteration.

use vstd::prelude::*;

use crate::arith::{
    abs, add_squared_distance, capped, lemma_squared_distance, magnitude, squared_distance,
};
use crate::decoder::DecodeResult;
use crate::matrix::Bit;
use crate::min_sum::{coins_at, hard_decision, BpModel, MinSumBPDecoder};

verus! {

/// What is observed while decoding. Entry `t - 1` of a list belongs to iteration `t`.
#[derive(Clone, Debug)]
pub struct Step1Metrics {
    /// The number of variables.
    pub variable_count: usize,
    /// The number of detectors that the decoding does not explain.
    pub w_sigma: Vec<usize>,
    /// The number of bits that changed.
    pub delta_hd: Vec<usize>,
    /// The posteriors, after the priors at entry zero.
    pub m_history: Vec<Vec<i64>>,
    /// The sum of the squares of the changes of the posteriors.
    pub delta_m_squares: Vec<u128>,
    /// The sum of the squares of the posteriors.
    pub m_squares: Vec<u128>,
    /// The sum of the magnitudes of the posteriors.
    pub m_magnitudes: Vec<u128>,
    /// The number of posteriors of magnitude below the first threshold.
    pub low_0_count: Vec<usize>,
    /// The number of posteriors of magnitude below the second threshold.
    pub low_1_count: Vec<usize>,
    /// The number of signs that differ from those a fixed number of iterations ago.
    pub f_endpoint: Vec<usize>,
    /// The number of variables whose sign oscillates.
    pub v_osc: Vec<usize>,
    /// The first iteration at which decoding stagnates.
    pub t_stag: Option<usize>,
    /// The signs of each iteration, eight to a byte with the first in the highest bit.
    pub sign_trajectory_packed: Option<Vec<Vec<u8>>>,
    /// The number of bytes that hold the signs of one iteration.
    pub sign_bytes_per_iter: usize,
    /// The magnitudes of the posteriors at the snapshot times.
    pub abs_m_snapshots: Option<Vec<Vec<i64>>>,
    /// The snapshot times, increasing.
    pub snapshot_times: Vec<usize>,
}

/// What is to be observed.
#[derive(Clone, Debug)]
pub struct Step1Options {
    /// The length of the oscillation window.
    pub k_default: usize,
    /// The iterations before the window opens.
    pub t_warmup: usize,
    /// The share of sign changes in the window above which a variable oscillates.
    pub theta_num: u32,
    /// The denominator of that share.
    pub theta_den: u32,
    /// The number of oscillating variables from which decoding stagnates.
    pub n_min_default: usize,
    /// The first threshold for small posteriors.
    pub low_threshold_0: i64,
    /// The second threshold for small posteriors.
    pub low_threshold_1: i64,
    /// The number of iterations over which signs are compared.
    pub endpoint_k: usize,
    /// Whether the signs are recorded.
    pub collect_sign_trajectory: bool,
    /// The iterations whose posteriors are recorded.
    pub snapshot_times: Vec<usize>,
}

/// The places below `n` at which `a` and `b` differ.
pub open spec fn count_ne<T>(a: Seq<T>, b: Seq<T>, n: int) -> nat
    decreases n,
{
    if n <= 0 {
        0
    } else {
        count_ne(a, b, n - 1) + (if a[n - 1] != b[n - 1] {
            1nat
        } else {
            0nat
        })
    }
}

/// The signs of ratios: whether each is negative.
pub open spec fn signs(s: Seq<i64>) -> Seq<bool> {
    Seq::new(s.len(), |j: int| s[j] < 0)
}

/// The ratios below `n` of magnitude less than `threshold`.
pub open spec fn count_low(s: Seq<i64>, threshold: int, n: int) -> nat
    decreases n,
{
    if n <= 0 {
        0
    } else {
        count_low(s, threshold, n - 1) + (if abs(s[n - 1] as int) < threshold {
            1nat
        } else {
            0nat
        })
    }
}

/// The sum of the squared distances of `a` and `b` below `n`.
pub open spec fn squares_below(a: Seq<i64>, b: Seq<i64>, n: int) -> int
    decreases n,
{
    if n <= 0 {
        0
    } else {
        squares_below(a, b, n - 1) + squared_distance(a[n - 1] as int, b[n - 1] as int)
    }
}

/// The sum of the magnitudes below `n`.
pub open spec fn magnitudes_below(s: Seq<i64>, n: int) -> int
    decreases n,
{
    if n <= 0 {
        0
    } else {
        magnitudes_below(s, n - 1) + abs(s[n - 1] as int)
    }
}

/// As many zeros as `s` is long.
pub open spec fn origin(s: Seq<i64>) -> Seq<i64> {
    Seq::new(s.len(), |j: int| 0i64)
}

/// Whether the sign of variable `j` changed at iteration `t`.
pub open spec fn flipped(h: Seq<Seq<i64>>, j: int, t: int) -> bool {
    (h[t][j] < 0) != (h[t - 1][j] < 0)
}

/// The sign changes of variable `j` in the iterations after `from` up to `to`.
pub open spec fn flips(h: Seq<Seq<i64>>, j: int, from: int, to: int) -> nat
    decreases to - from,
{
    if to <= from {
        0
    } else {
        flips(h, j, from, to - 1) + (if flipped(h, j, to) {
            1nat
        } else {
            0nat
        })
    }
}

/// The variables below `n` whose sign changed in more than `num / den` of the `k` iterations
/// up to `t`.
pub open spec fn oscillating(
    h: Seq<Seq<i64>>,
    t: int,
    k: int,
    num: int,
    den: int,
    n: int,
) -> nat
    decreases n,
{
    if n <= 0 {
        0
    } else {
        oscillating(h, t, k, num, den, n - 1) + (if flips(h, n - 1, t - k, t) * den > num * k {
            1nat
        } else {
            0nat
        })
    }
}

/// The first `i` signs from place `base` on, as a number with the first in the highest bit.
/// Places past the end hold no sign.
pub open spec fn packed(s: Seq<bool>, base: int, i: int) -> int
    decreases i,
{
    if i <= 0 {
        0
    } else {
        2 * packed(s, base, i - 1) + (if base + i - 1 < s.len() && s[base + i - 1] {
            1int
        } else {
            0int
        })
    }
}

/// The signs packed eight to a byte.
pub open spec fn packed_row(s: Seq<bool>) -> Seq<u8> {
    Seq::new(((s.len() + 7) / 8) as nat, |b: int| packed(s, 8 * b, 8) as u8)
}

/// The posteriors of the iterations of `d.run(det, coins, n)`.
pub open spec fn posteriors(
    d: BpModel,
    det: Seq<Bit>,
    coins: Seq<Vec<bool>>,
    n: nat,
) -> Seq<Seq<i64>>
    decreases n,
{
    if n == 0 {
        Seq::empty()
    } else {
        let next = d.iterate(det, coins_at(coins, d.iteration as int)).counted();
        let rest = if next.converged(det) {
            Seq::empty()
        } else {
            posteriors(next, det, coins, (n - 1) as nat)
        };
        seq![next.posterior] + rest
    }
}

/// The lists in a list.
pub open spec fn views(h: Seq<Vec<i64>>) -> Seq<Seq<i64>> {
    Seq::new(h.len(), |t: int| h[t]@)
}

impl Step1Options {
    /// The length of the oscillation window, at least one.
    pub open spec fn window(self) -> int {
        if self.k_default == 0 {
            1
        } else {
            self.k_default as int
        }
    }

    /// The number of iterations over which signs are compared, at least one.
    pub open spec fn lag(self) -> int {
        if self.endpoint_k == 0 {
            1
        } else {
            self.endpoint_k as int
        }
    }

    /// The share above which a variable oscillates, at most one.
    pub open spec fn share(self) -> int {
        if self.theta_num > self.theta_den {
            self.theta_den as int
        } else {
            self.theta_num as int
        }
    }

    /// The unexplained detectors after iteration `t`.
    pub open spec fn w_sigma(self, d: BpModel, det: Seq<Bit>, h: Seq<Seq<i64>>, t: int) -> nat {
        count_ne(det, d.matrix.mul_mod2(hard_decision(h[t])), det.len() as int)
    }

    /// The bits that changed at iteration `t`.
    pub open spec fn delta_hd(self, h: Seq<Seq<i64>>, t: int) -> nat {
        count_ne(hard_decision(h[t]), hard_decision(h[t - 1]), h[t].len() as int)
    }

    /// The signs at iteration `t` that differ from those a lag earlier; zero before that.
    pub open spec fn f_endpoint(self, h: Seq<Seq<i64>>, t: int) -> nat {
        if t >= self.lag() {
            count_ne(signs(h[t]), signs(h[t - self.lag()]), h[t].len() as int)
        } else {
            0
        }
    }

    /// The variables that oscillate at iteration `t`; zero before the window is full.
    pub open spec fn v_osc(self, h: Seq<Seq<i64>>, t: int) -> nat {
        if t >= self.t_warmup + self.window() {
            oscillating(
                h,
                t,
                self.window(),
                self.share(),
                self.theta_den as int,
                h[t].len() as int,
            )
        } else {
            0
        }
    }

    /// Whether decoding stagnates at iteration `t`.
    pub open spec fn stagnates(self, d: BpModel, det: Seq<Bit>, h: Seq<Seq<i64>>, t: int) -> bool {
        &&& t >= self.t_warmup + self.window()
        &&& self.w_sigma(d, det, h, t) > 0
        &&& self.v_osc(h, t) >= self.n_min_default
    }

    /// The first of the iterations up to `t` at which decoding stagnates.
    pub open spec fn t_stag(self, d: BpModel, det: Seq<Bit>, h: Seq<Seq<i64>>, t: int) -> Option<
        usize,
    >
        decreases t,
    {
        if t <= 0 {
            None
        } else {
            match self.t_stag(d, det, h, t - 1) {
                Some(first) => Some(first),
                None => if self.stagnates(d, det, h, t) {
                    Some(t as usize)
                } else {
                    None
                },
            }
        }
    }
}

impl Step1Metrics {
    /// The metrics of the posteriors `h`, with the priors at entry zero, as far as they go
    /// iteration by iteration.
    pub open spec fn observes(
        self,
        o: Step1Options,
        d: BpModel,
        det: Seq<Bit>,
        h: Seq<Seq<i64>>,
    ) -> bool {
        let n = h.len() - 1;
        &&& self.variable_count == d.cols()
        &&& views(self.m_history@) == h
        &&& self.w_sigma@ == Seq::new(n as nat, |i: int| o.w_sigma(d, det, h, i + 1) as usize)
        &&& self.delta_hd@ == Seq::new(n as nat, |i: int| o.delta_hd(h, i + 1) as usize)
        &&& self.delta_m_squares@ == Seq::new(
            n as nat,
            |i: int| capped(squares_below(h[i + 1], h[i], d.cols() as int)) as u128,
        )
        &&& self.m_squares@ == Seq::new(
            n as nat,
            |i: int| capped(squares_below(h[i + 1], origin(h[i + 1]), d.cols() as int)) as u128,
        )
        &&& self.m_magnitudes@ == Seq::new(
            n as nat,
            |i: int| magnitudes_below(h[i + 1], d.cols() as int) as u128,
        )
        &&& self.low_0_count@ == Seq::new(
            n as nat,
            |i: int|
                count_low(h[i + 1], abs(o.low_threshold_0 as int), d.cols() as int) as usize,
        )
        &&& self.low_1_count@ == Seq::new(
            n as nat,
            |i: int|
                count_low(h[i + 1], abs(o.low_threshold_1 as int), d.cols() as int) as usize,
        )
        &&& self.f_endpoint@ == Seq::new(n as nat, |i: int| o.f_endpoint(h, i + 1) as usize)
        &&& self.v_osc@ == Seq::new(n as nat, |i: int| o.v_osc(h, i + 1) as usize)
        &&& self.t_stag == o.t_stag(d, det, h, n)
    }

    /// The signs of the posteriors `h` after entry zero are recorded if they are asked for.
    pub open spec fn records_signs(self, o: Step1Options, cols: nat, h: Seq<Seq<i64>>) -> bool {
        &&& self.sign_bytes_per_iter == (cols + 7) / 8
        &&& match self.sign_trajectory_packed {
            Some(rows) => {
                &&& o.collect_sign_trajectory
                &&& rows.len() == h.len() - 1
                &&& forall|i: int|
                    0 <= i < rows.len() ==> (#[trigger] rows[i])@ == packed_row(signs(h[i + 1]))
            },
            None => !o.collect_sign_trajectory,
        }
    }

    /// The magnitudes at the snapshot times are recorded, the last ones for times past the
    /// end. The times are those asked for, without zero, in increasing order.
    pub open spec fn records_snapshots(self, o: Step1Options, h: Seq<Seq<i64>>) -> bool {
        let times = self.snapshot_times@;
        &&& forall|a: int, b: int| 0 <= a < b < times.len() ==> times[a] < times[b]
        &&& forall|x: usize| times.contains(x) <==> x > 0 && o.snapshot_times@.contains(x)
        &&& match self.abs_m_snapshots {
            Some(rows) => {
                &&& times.len() > 0
                &&& rows.len() == times.len()
                &&& forall|i: int|
                    0 <= i < rows.len() ==> (#[trigger] rows[i])@ == magnitudes(
                        h[if times[i] < h.len() {
                            times[i] as int
                        } else {
                            h.len() - 1
                        }],
                    )
            },
            None => times.len() == 0,
        }
    }
}

/// The magnitudes of ratios.
pub open spec fn magnitudes(s: Seq<i64>) -> Seq<i64> {
    Seq::new(s.len(), |j: int| abs(s[j] as int) as i64)
}

/// What is observed is what decoding goes through: as many posteriors as it has iterations,
/// the last of which are those of its result.
pub proof fn law_metrics_only_observe(d: BpModel, det: Seq<Bit>, coins: Seq<Vec<bool>>)
    ensures
        ({
            let h = posteriors(d.initialized(), det, coins, d.config.max_iter as nat);
            let r = d.decoded(det, coins);
            &&& h.len() == r.iterations
            &&& h.len() > 0 ==> h.last() == r.posterior
        }),
{
    lemma_posteriors(d.initialized(), det, coins, d.config.max_iter as nat);
}

/// There is one entry of each metric for every iteration, and where signs are asked for one bit
/// of them for every variable, packed into bytes.
pub proof fn law_one_metric_per_iteration(
    metrics: Step1Metrics,
    o: Step1Options,
    d: BpModel,
    det: Seq<Bit>,
    coins: Seq<Vec<bool>>,
)
    requires
        ({
            let h = seq![d.priors] + posteriors(
                d.initialized(),
                det,
                coins,
                d.config.max_iter as nat,
            );
            &&& metrics.observes(o, d, det, h)
            &&& metrics.records_signs(o, d.cols(), h)
        }),
    ensures
        ({
            let n = d.decoded(det, coins).iterations;
            &&& metrics.m_history.len() == n + 1
            &&& metrics.w_sigma.len() == n
            &&& metrics.delta_hd.len() == n
            &&& metrics.delta_m_squares.len() == n
            &&& metrics.m_squares.len() == n
            &&& metrics.m_magnitudes.len() == n
            &&& metrics.low_0_count.len() == n
            &&& metrics.low_1_count.len() == n
            &&& metrics.f_endpoint.len() == n
            &&& metrics.v_osc.len() == n
            &&& metrics.sign_trajectory_packed is Some <==> o.collect_sign_trajectory
            &&& metrics.sign_trajectory_packed matches Some(rows) ==> rows.len() == n && forall|
                i: int,
            |
                0 <= i < n ==> (#[trigger] rows[i]).len() == (d.cols() + 7) / 8
        }),
{
    let p = posteriors(d.initialized(), det, coins, d.config.max_iter as nat);
    let h = seq![d.priors] + p;
    law_metrics_only_observe(d, det, coins);
    lemma_posteriors(d.initialized(), det, coins, d.config.max_iter as nat);
    assert(views(metrics.m_history@).len() == h.len());
    if let Some(rows) = metrics.sign_trajectory_packed {
        assert forall|i: int| 0 <= i < rows.len() implies (#[trigger] rows[i]).len() == (d.cols()
            + 7) / 8 by {
            assert(h[i + 1] == p[i]);
        }
    }
}

proof fn lemma_posteriors(d: BpModel, det: Seq<Bit>, coins: Seq<Vec<bool>>, n: nat)
    ensures
        ({
            let h = posteriors(d, det, coins, n);
            let last = d.run(det, coins, n);
            &&& d.iteration + h.len() == last.iteration
            &&& h.len() == 0 ==> n == 0
            &&& h.len() > 0 ==> h.last() == last.posterior
            &&& forall|i: int| 0 <= i < h.len() ==> (#[trigger] h[i]).len() == d.cols()
        }),
    decreases n,
{
    if n > 0 {
        let next = d.iterate(det, coins_at(coins, d.iteration as int)).counted();
        if !next.converged(det) {
            lemma_posteriors(next, det, coins, (n - 1) as nat);
            if n == 1 {
                assert(next.run(det, coins, 0) == next);
            }
        }
    }
}

/// Nothing oscillates before the window is full, and decoding never stagnates before that.
pub proof fn law_stagnation_after_window(
    o: Step1Options,
    d: BpModel,
    det: Seq<Bit>,
    h: Seq<Seq<i64>>,
    n: int,
)
    requires
        n <= usize::MAX,
    ensures
        forall|t: int| t < o.t_warmup + o.window() ==> #[trigger] o.v_osc(h, t) == 0,
        o.t_stag(d, det, h, n) matches Some(t) ==> {
            &&& o.t_warmup + o.window() <= t <= n
            &&& o.stagnates(d, det, h, t as int)
            &&& forall|e: int| 0 < e < t ==> !#[trigger] o.stagnates(d, det, h, e)
        },
        o.t_stag(d, det, h, n) is None ==> forall|e: int|
            0 < e <= n ==> !#[trigger] o.stagnates(d, det, h, e),
    decreases n,
{
    if n > 0 {
        law_stagnation_after_window(o, d, det, h, n - 1);
    }
}

/// No detector is left unexplained exactly if the decoding explains them all.
pub proof fn law_weight_zero_explains(
    o: Step1Options,
    d: BpModel,
    det: Seq<Bit>,
    h: Seq<Seq<i64>>,
    t: int,
)
    requires
        det.len() == d.matrix.rows,
    ensures
        o.w_sigma(d, det, h, t) == 0 <==> d.matrix.mul_mod2(hard_decision(h[t])) == det,
{
    let own = d.matrix.mul_mod2(hard_decision(h[t]));
    lemma_count_ne_zero(det, own, det.len() as int);
    if o.w_sigma(d, det, h, t) == 0 {
        assert(own =~= det);
    }
}

proof fn lemma_count_ne_zero<T>(a: Seq<T>, b: Seq<T>, n: int)
    requires
        0 <= n,
    ensures
        count_ne(a, b, n) == 0 <==> forall|i: int| 0 <= i < n ==> (#[trigger] a[i]) == b[i],
    decreases n,
{
    if n > 0 {
        lemma_count_ne_zero(a, b, n - 1);
        if forall|i: int| 0 <= i < n ==> (#[trigger] a[i]) == b[i] {
            assert(a[n - 1] == b[n - 1]);
        }
    }
}

proof fn lemma_count_ne_bound<T>(a: Seq<T>, b: Seq<T>, n: int)
    requires
        0 <= n,
    ensures
        count_ne(a, b, n) <= n,
    decreases n,
{
    if n > 0 {
        lemma_count_ne_bound(a, b, n - 1);
    }
}

/// The number of differing bits.
pub fn count_bit_changes(a: &Vec<Bit>, b: &Vec<Bit>) -> (r: usize)
    requires
        a.len() == b.len(),
    ensures
        r == count_ne(a@, b@, a@.len() as int),
{
    let mut r: usize = 0;
    let mut i: usize = 0;
    while i < a.len()
        invariant
            i <= a.len() == b.len(),
            r <= i,
            r == count_ne(a@, b@, i as int),
        decreases a.len() - i,
    {
        if a[i] != b[i] {
            r += 1;
        }
        i += 1;
    }
    r
}

/// The number of bits that differ between two hard decisions.
fn count_decision_changes(a: &Vec<i64>, b: &Vec<i64>) -> (r: usize)
    requires
        a.len() == b.len(),
    ensures
        r == count_ne(hard_decision(a@), hard_decision(b@), a@.len() as int),
{
    let mut r: usize = 0;
    let mut i: usize = 0;
    while i < a.len()
        invariant
            i <= a.len() == b.len(),
            r <= i,
            r == count_ne(hard_decision(a@), hard_decision(b@), i as int),
        decreases a.len() - i,
    {
        if (a[i] <= 0) != (b[i] <= 0) {
            r += 1;
        }
        i += 1;
    }
    r
}

/// The number of differing signs.
fn count_sign_changes(a: &Vec<i64>, b: &Vec<i64>) -> (r: usize)
    requires
        a.len() == b.len(),
    ensures
        r == count_ne(signs(a@), signs(b@), a@.len() as int),
{
    let mut r: usize = 0;
    let mut i: usize = 0;
    while i < a.len()
        invariant
            i <= a.len() == b.len(),
            r <= i,
            r == count_ne(signs(a@), signs(b@), i as int),
        decreases a.len() - i,
    {
        if (a[i] < 0) != (b[i] < 0) {
            r += 1;
        }
        i += 1;
    }
    r
}

/// The number of ratios of small magnitude.
fn count_small(s: &Vec<i64>, threshold: i64) -> (r: usize)
    requires
        forall|j: int| 0 <= j < s.len() ==> s[j] > i64::MIN,
    ensures
        r == count_low(s@, abs(threshold as int), s@.len() as int),
{
    let limit: i128 = if threshold < 0 {
        -(threshold as i128)
    } else {
        threshold as i128
    };
    let mut r: usize = 0;
    let mut i: usize = 0;
    while i < s.len()
        invariant
            i <= s.len(),
            r <= i,
            limit == abs(threshold as int),
            forall|j: int| 0 <= j < s.len() ==> s[j] > i64::MIN,
            r == count_low(s@, abs(threshold as int), i as int),
        decreases s.len() - i,
    {
        if (magnitude(s[i]) as i128) < limit {
            r += 1;
        }
        i += 1;
    }
    r
}

/// The sum of the squared distances.
fn sum_squares(a: &Vec<i64>, b: &Vec<i64>) -> (r: u128)
    requires
        a.len() == b.len(),
    ensures
        r == capped(squares_below(a@, b@, a@.len() as int)),
{
    let mut r: u128 = 0;
    let mut i: usize = 0;
    while i < a.len()
        invariant
            i <= a.len() == b.len(),
            r == capped(squares_below(a@, b@, i as int)),
        decreases a.len() - i,
    {
        proof {
            lemma_squared_distance(a[i as int] as int, b[i as int] as int);
        }
        r = add_squared_distance(r, a[i] as i128, b[i] as i128);
        i += 1;
    }
    r
}

/// The sum of the magnitudes.
fn sum_magnitudes(s: &Vec<i64>) -> (r: u128)
    requires
        forall|j: int| 0 <= j < s.len() ==> s[j] > i64::MIN,
    ensures
        r == magnitudes_below(s@, s@.len() as int),
{
    let mut r: u128 = 0;
    let mut i: usize = 0;
    while i < s.len()
        invariant
            i <= s.len(),
            forall|j: int| 0 <= j < s.len() ==> s[j] > i64::MIN,
            r == magnitudes_below(s@, i as int),
            r <= i * 0x7fff_ffff_ffff_ffff,
        decreases s.len() - i,
    {
        proof {
            assert((i + 1) * 0x7fff_ffff_ffff_ffff == i * 0x7fff_ffff_ffff_ffff
                + 0x7fff_ffff_ffff_ffff) by (nonlinear_arith);
            assert((i + 1) * 0x7fff_ffff_ffff_ffff <= 0xffff_ffff_ffff_ffff
                * 0x7fff_ffff_ffff_ffff) by (nonlinear_arith)
                requires
                    i + 1 <= 0xffff_ffff_ffff_ffff,
            ;
        }
        r = r + (magnitude(s[i]) as u128);
        i += 1;
    }
    r
}

/// The number of bytes that hold `n` signs.
fn sign_bytes(n: usize) -> (r: usize)
    ensures
        r == (n + 7) / 8,
{
    if n % 8 == 0 {
        n / 8
    } else {
        n / 8 + 1
    }
}

/// The signs of ratios, eight to a byte.
fn pack_signs(s: &Vec<i64>) -> (r: Vec<u8>)
    ensures
        r@ == packed_row(signs(s@)),
{
    let bytes: usize = sign_bytes(s.len());
    let mut r: Vec<u8> = Vec::new();
    let mut b: usize = 0;
    while b < bytes
        invariant
            bytes == (s.len() + 7) / 8,
            b <= bytes,
            r.len() == b,
            forall|k: int| 0 <= k < b ==> r[k] == packed_row(signs(s@))[k],
        decreases bytes - b,
    {
        let base: usize = 8 * b;
        let mut byte: u16 = 0;
        let mut i: usize = 0;
        let mut limit: u16 = 1;
        while i < 8
            invariant
                i <= 8,
                base == 8 * b,
                b < bytes,
                bytes == (s.len() + 7) / 8,
                byte == packed(signs(s@), base as int, i as int),
                byte < limit,
                (i == 0 && limit == 1) || (i == 1 && limit == 2) || (i == 2 && limit == 4) || (i == 3
                    && limit == 8) || (i == 4 && limit == 16) || (i == 5 && limit == 32) || (i == 6
                    && limit == 64) || (i == 7 && limit == 128) || (i == 8 && limit == 256),
            decreases 8 - i,
        {
            let set: bool = i < s.len() - base && s[base + i] < 0;
            byte = if set {
                2 * byte + 1
            } else {
                2 * byte
            };
            limit = 2 * limit;
            i += 1;
        }
        r.push(byte as u8);
        b += 1;
    }
    assert(r@ =~= packed_row(signs(s@)));
    r
}

/// The positive numbers among `times`, in increasing order and without repetition.
pub fn sorted_positive(times: &Vec<usize>) -> (r: Vec<usize>)
    ensures
        forall|a: int, b: int| 0 <= a < b < r.len() ==> r[a] < r[b],
        forall|x: usize| r@.contains(x) <==> x > 0 && times@.contains(x),
{
    let mut r: Vec<usize> = Vec::new();
    let mut i: usize = 0;
    while i < times.len()
        invariant
            i <= times.len(),
            forall|a: int, b: int| 0 <= a < b < r.len() ==> r[a] < r[b],
            forall|x: usize| r@.contains(x) <==> x > 0 && times@.take(i as int).contains(x),
        decreases times.len() - i,
    {
        let x: usize = times[i];
        let ghost before = r@;
        let ghost seen = times@.take(i as int);
        assert(times@.take(i + 1) =~= seen.push(x));
        let mut p: usize = 0;
        while p < r.len() && r[p] < x
            invariant
                p <= r.len(),
                r@ == before,
                forall|a: int, b: int| 0 <= a < b < r.len() ==> r[a] < r[b],
                forall|a: int| 0 <= a < p ==> r[a] < x,
            decreases r.len() - p,
        {
            p += 1;
        }
        let present: bool = p < r.len() && r[p] == x;
        if x > 0 && !present {
            r.insert(p, x);
        }
        proof {
            assert forall|y: usize| r@.contains(y) <==> y > 0 && times@.take(i + 1).contains(y) by {
                assert(seen.push(x).contains(y) <==> seen.contains(y) || y == x) by {
                    if seen.contains(y) {
                        let k = choose|k: int| 0 <= k < seen.len() && seen[k] == y;
                        assert(seen.push(x)[k] == y);
                    }
                    assert(seen.push(x)[seen.len() as int] == x);
                }
                if x > 0 && !present {
                    assert(r@ == before.insert(p as int, x));
                    if before.contains(y) {
                        let k = choose|k: int| 0 <= k < before.len() && before[k] == y;
                        if k < p {
                            assert(r@[k] == y);
                        } else {
                            assert(r@[k + 1] == y);
                        }
                    }
                    assert(r@[p as int] == x);
                    if r@.contains(y) && y != x {
                        let k = choose|k: int| 0 <= k < r@.len() && r@[k] == y;
                        if k < p {
                            assert(before[k] == y);
                        } else {
                            assert(before[k - 1] == y);
                        }
                    }
                } else if present {
                    assert(before[p as int] == x);
                }
            }
        }
        i += 1;
    }
    assert(times@.take(i as int) =~= times@);
    r
}

/// The iteration after which sign changes count at iteration `t`.
spec fn window_start(w: int, k: int, t: int) -> int {
    if t - k > w {
        t - k
    } else {
        w
    }
}

proof fn lemma_flips_first(h: Seq<Seq<i64>>, j: int, from: int, to: int)
    requires
        from < to,
    ensures
        flips(h, j, from, to) == flips(h, j, from + 1, to) + (if flipped(h, j, from + 1) {
            1nat
        } else {
            0nat
        }),
    decreases to - from,
{
    if to > from + 1 {
        lemma_flips_first(h, j, from, to - 1);
    } else {
        assert(flips(h, j, from, from) == 0);
        assert(flips(h, j, from + 1, to) == 0);
    }
}

proof fn lemma_flips_bound(h: Seq<Seq<i64>>, j: int, from: int, to: int)
    ensures
        flips(h, j, from, to) <= (if to > from {
            to - from
        } else {
            0
        }),
    decreases to - from,
{
    if to > from {
        lemma_flips_bound(h, j, from, to - 1);
    }
}

/// Moves the window of sign changes on to iteration `t`.
fn update_flip_sums(
    hist: &Vec<Vec<i64>>,
    sums: &mut Vec<usize>,
    t: usize,
    w: usize,
    k: usize,
    Ghost(h): Ghost<Seq<Seq<i64>>>,
)
    requires
        1 <= t < hist.len() <= h.len(),
        forall|s: int| 0 <= s < hist.len() ==> (#[trigger] hist[s])@ == h[s],
        forall|s: int| 0 <= s < hist.len() ==> (#[trigger] hist[s]).len() == old(sums).len(),
        k >= 1,
        forall|j: int|
            0 <= j < old(sums).len() ==> #[trigger] old(sums)@[j] == flips(
                h,
                j,
                window_start(w as int, k as int, t - 1),
                t - 1,
            ),
    ensures
        final(sums).len() == old(sums).len(),
        forall|j: int|
            0 <= j < old(sums).len() ==> #[trigger] final(sums)@[j] == flips(
                h,
                j,
                window_start(w as int, k as int, t as int),
                t as int,
            ),
{
    let n: usize = sums.len();
    let ghost before = sums@;
    let mut j: usize = 0;
    while j < n
        invariant
            j <= n,
            n == sums.len() == before.len(),
            1 <= t < hist.len() <= h.len(),
            forall|s: int| 0 <= s < hist.len() ==> (#[trigger] hist[s])@ == h[s],
            forall|s: int| 0 <= s < hist.len() ==> (#[trigger] hist[s]).len() == n,
            k >= 1,
            forall|i: int|
                0 <= i < n ==> #[trigger] before[i] == flips(
                    h,
                    i,
                    window_start(w as int, k as int, t - 1),
                    t - 1,
                ),
            forall|i: int| j <= i < n ==> #[trigger] sums@[i] == before[i],
            forall|i: int|
                0 <= i < j ==> #[trigger] sums@[i] == flips(
                    h,
                    i,
                    window_start(w as int, k as int, t as int),
                    t as int,
                ),
        decreases n - j,
    {
        if t > w {
            let ghost a = window_start(w as int, k as int, t - 1);
            proof {
                lemma_flips_bound(h, j as int, a, t - 1);
                lemma_flips_bound(h, j as int, a, t as int);
                assert(hist[t as int]@ == h[t as int] && hist[t - 1]@ == h[t - 1]);
                assert(before[j as int] == flips(h, j as int, a, t - 1));
                assert(sums@[j as int] == before[j as int]);
            }
            let mut count: usize = sums[j];
            if (hist[t][j] < 0) != (hist[t - 1][j] < 0) {
                count += 1;
            }
            assert(count == flips(h, j as int, a, t as int));
            if t - w > k {
                let u: usize = t - k;
                proof {
                    lemma_flips_first(h, j as int, a, t as int);
                    assert(hist[u as int]@ == h[u as int] && hist[u - 1]@ == h[u - 1]);
                }
                if (hist[u][j] < 0) != (hist[u - 1][j] < 0) {
                    count -= 1;
                }
            }
            sums.set(j, count);
        } else {
            assert(sums@[j as int] == before[j as int]);
        }
        j += 1;
    }
}

/// The number of variables that oscillate, by their sign changes in the window.
fn count_oscillating(
    sums: &Vec<usize>,
    t: usize,
    k: usize,
    num: u32,
    den: u32,
    Ghost(h): Ghost<Seq<Seq<i64>>>,
) -> (r: usize)
    requires
        forall|j: int|
            0 <= j < sums.len() ==> #[trigger] sums@[j] == flips(h, j, t - k, t as int),
    ensures
        r == oscillating(h, t as int, k as int, num as int, den as int, sums.len() as int),
{
    let mut r: usize = 0;
    let mut j: usize = 0;
    proof {
        lemma_usize_product(num, k);
    }
    let bar: u128 = (num as u128) * (k as u128);
    while j < sums.len()
        invariant
            j <= sums.len(),
            r <= j,
            bar == num * k,
            forall|i: int|
                0 <= i < sums.len() ==> #[trigger] sums@[i] == flips(h, i, t - k, t as int),
            r == oscillating(h, t as int, k as int, num as int, den as int, j as int),
        decreases sums.len() - j,
    {
        let count: usize = sums[j];
        proof {
            lemma_usize_product(den, count);
            assert(count * den == den * count) by (nonlinear_arith);
        }
        if (den as u128) * (count as u128) > bar {
            r += 1;
        }
        j += 1;
    }
    r
}

proof fn lemma_usize_product(a: u32, b: usize)
    ensures
        0 <= a * b <= u128::MAX,
{
    assert(0 <= a * b <= 0x1_0000_0000 * 0x1_0000_0000_0000_0000) by (nonlinear_arith)
        requires
            0 <= a <= 0x1_0000_0000,
            0 <= b <= 0x1_0000_0000_0000_0000,
    ;
}

/// The magnitudes of ratios.
fn magnitudes_of(s: &Vec<i64>) -> (r: Vec<i64>)
    requires
        forall|j: int| 0 <= j < s.len() ==> s[j] > i64::MIN,
    ensures
        r@ == magnitudes(s@),
{
    let mut r: Vec<i64> = Vec::new();
    let mut i: usize = 0;
    while i < s.len()
        invariant
            i <= s.len(),
            r.len() == i,
            forall|j: int| 0 <= j < s.len() ==> s[j] > i64::MIN,
            forall|j: int| 0 <= j < i ==> r[j] == abs(s[j] as int),
        decreases s.len() - i,
    {
        r.push(magnitude(s[i]));
        i += 1;
    }
    assert(r@ =~= magnitudes(s@));
    r
}

/// The magnitudes of the posteriors at the snapshot times.
fn take_snapshots(hist: &Vec<Vec<i64>>, times: &Vec<usize>) -> (r: Vec<Vec<i64>>)
    requires
        hist.len() > 0,
        forall|t: int, j: int|
            0 <= t < hist.len() && 0 <= j < hist[t].len() ==> #[trigger] hist[t][j] > i64::MIN,
    ensures
        r.len() == times.len(),
        forall|i: int|
            0 <= i < r.len() ==> (#[trigger] r[i])@ == magnitudes(
                hist[if times[i] < hist.len() {
                    times[i] as int
                } else {
                    hist.len() - 1
                }]@,
            ),
{
    let mut r: Vec<Vec<i64>> = Vec::new();
    let mut i: usize = 0;
    while i < times.len()
        invariant
            hist.len() > 0,
            forall|t: int, j: int|
                0 <= t < hist.len() && 0 <= j < hist[t].len() ==> #[trigger] hist[t][j] > i64::MIN,
            i <= times.len(),
            r.len() == i,
            forall|k: int|
                0 <= k < i ==> (#[trigger] r[k])@ == magnitudes(
                    hist[if times[k] < hist.len() {
                        times[k] as int
                    } else {
                        hist.len() - 1
                    }]@,
                ),
        decreases times.len() - i,
    {
        let t: usize = if times[i] < hist.len() {
            times[i]
        } else {
            hist.len() - 1
        };
        r.push(magnitudes_of(&hist[t]));
        i += 1;
    }
    r
}

impl MinSumBPDecoder {
    /// Decodes a syndrome, as `decode_detailed` does, and observes each iteration.
    pub fn decode_detailed_step1_metrics(
        &mut self,
        detectors: &Vec<Bit>,
        options: &Step1Options,
    ) -> (r: (DecodeResult, Step1Metrics))
        requires
            old(self)@.wf(),
            detectors.len() == old(self)@.matrix.rows,
        ensures
            final(self)@.wf(),
            final(self)@ == old(self)@.initialized().run(
                detectors@,
                Seq::empty(),
                old(self)@.config.max_iter as nat,
            ),
            r.0@ == old(self)@.decoded(detectors@, Seq::empty()),
            r.0.extra is NoExtra,
            ({
                let h = seq![old(self)@.priors] + posteriors(
                    old(self)@.initialized(),
                    detectors@,
                    Seq::empty(),
                    old(self)@.config.max_iter as nat,
                );
                &&& r.1.observes(*options, old(self)@, detectors@, h)
                &&& r.1.records_signs(*options, old(self)@.cols(), h)
                &&& r.1.records_snapshots(*options, h)
            }),
    {
        let coins: Vec<Vec<bool>> = Vec::new();
        assert(coins@ =~= Seq::empty());
        self.decode_detailed_step1_metrics_with_coins(detectors, &coins, options)
    }

    /// Decodes a syndrome, as `decode_detailed_with_coins` does, and observes each iteration.
    pub fn decode_detailed_step1_metrics_with_coins(
        &mut self,
        detectors: &Vec<Bit>,
        coins: &Vec<Vec<bool>>,
        options: &Step1Options,
    ) -> (r: (DecodeResult, Step1Metrics))
        requires
            old(self)@.wf(),
            detectors.len() == old(self)@.matrix.rows,
        ensures
            final(self)@.wf(),
            final(self)@ == old(self)@.initialized().run(
                detectors@,
                coins@,
                old(self)@.config.max_iter as nat,
            ),
            r.0@ == old(self)@.decoded(detectors@, coins@),
            r.0.extra is NoExtra,
            ({
                let h = seq![old(self)@.priors] + posteriors(
                    old(self)@.initialized(),
                    detectors@,
                    coins@,
                    old(self)@.config.max_iter as nat,
                );
                &&& r.1.observes(*options, old(self)@, detectors@, h)
                &&& r.1.records_signs(*options, old(self)@.cols(), h)
                &&& r.1.records_snapshots(*options, h)
            }),
    {
        let ghost d = self@;
        self.initialize_decoder();
        let n: usize = self.check_matrix.cols;
        let max_iter: usize = self.config.max_iter;
        let k: usize = if options.k_default == 0 {
            1
        } else {
            options.k_default
        };
        let lag: usize = if options.endpoint_k == 0 {
            1
        } else {
            options.endpoint_k
        };
        let w: usize = options.t_warmup;
        let share: u32 = if options.theta_num > options.theta_den {
            options.theta_den
        } else {
            options.theta_num
        };
        let none: Vec<bool> = Vec::new();
        let ghost all = self@.run(detectors@, coins@, max_iter as nat);
        let ghost h = seq![d.priors] + posteriors(self@, detectors@, coins@, max_iter as nat);

        let mut hist: Vec<Vec<i64>> = Vec::new();
        hist.push(self.log_prior_ratios.clone());
        let mut sums: Vec<usize> = vec![0; n];
        let mut w_sigma: Vec<usize> = Vec::new();
        let mut delta_hd: Vec<usize> = Vec::new();
        let zeros: Vec<i64> = vec![0; n];
        let mut delta_m_squares: Vec<u128> = Vec::new();
        let mut m_squares: Vec<u128> = Vec::new();
        let mut m_magnitudes: Vec<u128> = Vec::new();
        let mut low_0_count: Vec<usize> = Vec::new();
        let mut low_1_count: Vec<usize> = Vec::new();
        let mut f_endpoint: Vec<usize> = Vec::new();
        let mut v_osc: Vec<usize> = Vec::new();
        let mut t_stag: Option<usize> = None;
        let mut rows: Vec<Vec<u8>> = Vec::new();
        let mut success: bool = false;
        let mut decoded_detectors: Vec<Bit> = self.compute_decoded_detectors();
        let mut i: usize = 0;
        proof {
            assert(views(hist@) =~= seq![d.priors]);
            assert forall|j: int| 0 <= j < n implies #[trigger] sums@[j] == flips(
                h,
                j,
                window_start(w as int, k as int, 0),
                0,
            ) by {}
        }
        while i < max_iter && !success
            invariant
                self@.wf(),
                d.wf(),
                self@.matrix == d.matrix,
                n == d.cols(),
                detectors.len() == d.matrix.rows,
                k == options.window(),
                lag == options.lag(),
                w == options.t_warmup,
                share == options.share(),
                k >= 1,
                lag >= 1,
                none.len() == 0,
                self@.iteration == i,
                i <= max_iter,
                decoded_detectors@ == self@.decoded_detectors(),
                i == 0 ==> !success,
                i > 0 ==> success == self@.converged(detectors@),
                all == (if success {
                    self@
                } else {
                    self@.run(detectors@, coins@, (max_iter - i) as nat)
                }),
                hist.len() == i + 1,
                h == views(hist@) + (if success {
                    Seq::empty()
                } else {
                    posteriors(self@, detectors@, coins@, (max_iter - i) as nat)
                }),
                forall|t: int| 0 <= t < hist.len() ==> (#[trigger] hist[t]).len() == n,
                forall|t: int, j: int|
                    0 <= t < hist.len() && 0 <= j < n ==> #[trigger] hist[t][j] > i64::MIN,
                sums.len() == n,
                forall|j: int|
                    0 <= j < n ==> #[trigger] sums@[j] == flips(
                        h,
                        j,
                        window_start(w as int, k as int, i as int),
                        i as int,
                    ),
                w_sigma.len() == i,
                delta_hd.len() == i,
                zeros@ == Seq::new(n as nat, |j: int| 0i64),
                delta_m_squares.len() == i,
                m_squares.len() == i,
                m_magnitudes.len() == i,
                low_0_count.len() == i,
                low_1_count.len() == i,
                f_endpoint.len() == i,
                v_osc.len() == i,
                forall|x: int|
                    0 <= x < i ==> #[trigger] w_sigma[x] == options.w_sigma(d, detectors@, h, x + 1),
                forall|x: int| 0 <= x < i ==> #[trigger] delta_hd[x] == options.delta_hd(h, x + 1),
                forall|x: int|
                    0 <= x < i ==> #[trigger] delta_m_squares[x] == capped(
                        squares_below(h[x + 1], h[x], n as int),
                    ),
                forall|x: int|
                    0 <= x < i ==> #[trigger] m_squares[x] == capped(
                        squares_below(h[x + 1], origin(h[x + 1]), n as int),
                    ),
                forall|x: int|
                    0 <= x < i ==> #[trigger] m_magnitudes[x] == magnitudes_below(
                        h[x + 1],
                        n as int,
                    ),
                forall|x: int|
                    0 <= x < i ==> #[trigger] low_0_count[x] == count_low(
                        h[x + 1],
                        abs(options.low_threshold_0 as int),
                        n as int,
                    ),
                forall|x: int|
                    0 <= x < i ==> #[trigger] low_1_count[x] == count_low(
                        h[x + 1],
                        abs(options.low_threshold_1 as int),
                        n as int,
                    ),
                forall|x: int| 0 <= x < i ==> #[trigger] f_endpoint[x] == options.f_endpoint(h, x + 1),
                forall|x: int| 0 <= x < i ==> #[trigger] v_osc[x] == options.v_osc(h, x + 1),
                t_stag == options.t_stag(d, detectors@, h, i as int),
                rows.len() == (if options.collect_sign_trajectory {
                    i as int
                } else {
                    0
                }),
                forall|x: int|
                    0 <= x < rows.len() ==> (#[trigger] rows[x])@ == packed_row(signs(h[x + 1])),
            decreases max_iter - i,
        {
            let ghost cur = self@;
            let ghost before = hist@;
            if i < coins.len() {
                self.run_iteration(detectors, &coins[i]);
            } else {
                assert(none@ =~= Seq::empty());
                self.run_iteration(detectors, &none);
            }
            self.current_iteration = self.current_iteration + 1;
            let t: usize = i + 1;
            decoded_detectors = self.compute_decoded_detectors();
            success = self.check_convergence(detectors, &decoded_detectors);
            let m: Vec<i64> = self.posterior_ratios.clone();
            assert(m@ == self@.posterior);
            hist.push(m);
            proof {
                let next = cur.iterate(detectors@, coins_at(coins@, i as int)).counted();
                assert(self@ == next);
                assert(self@.decoding == hard_decision(self@.posterior));
                let rest = if success {
                    Seq::empty()
                } else {
                    posteriors(self@, detectors@, coins@, (max_iter - t) as nat)
                };
                assert(h == views(before) + (seq![self@.posterior] + rest));
                assert(views(hist@) =~= views(before) + seq![self@.posterior]);
                assert(views(before) + (seq![self@.posterior] + rest) =~= (views(before)
                    + seq![self@.posterior]) + rest);
                assert forall|s: int| 0 <= s < hist.len() implies (#[trigger] hist[s])@ == h[s] by {
                    assert(views(hist@)[s] == hist[s]@);
                }
                assert(hist[t as int]@ == h[t as int]);
                assert(hist[t - 1]@ == h[t - 1]);
                assert forall|s: int, j: int|
                    0 <= s < hist.len() && 0 <= j < n implies #[trigger] hist[s][j]
                    > i64::MIN by {
                    if s < before.len() {
                        assert(before[s][j] > i64::MIN);
                    }
                }
                assert forall|j: int| 0 <= j < hist[t as int].len() implies hist[t as int]@[j]
                    > i64::MIN by {
                    assert(hist[t as int][j] > i64::MIN);
                }
            }
            let weight: usize = count_bit_changes(detectors, &decoded_detectors);
            w_sigma.push(weight);
            delta_hd.push(count_decision_changes(&hist[t], &hist[t - 1]));
            assert(zeros@ =~= origin(h[t as int]));
            delta_m_squares.push(sum_squares(&hist[t], &hist[t - 1]));
            m_squares.push(sum_squares(&hist[t], &zeros));
            m_magnitudes.push(sum_magnitudes(&hist[t]));
            low_0_count.push(count_small(&hist[t], options.low_threshold_0));
            low_1_count.push(count_small(&hist[t], options.low_threshold_1));
            let far: usize = if t >= lag {
                assert(hist[t - lag]@ == h[t - lag]);
                count_sign_changes(&hist[t], &hist[t - lag])
            } else {
                0
            };
            f_endpoint.push(far);
            update_flip_sums(&hist, &mut sums, t, w, k, Ghost(h));
            let ready: bool = t >= w && t - w >= k;
            let osc: usize = if ready {
                count_oscillating(&sums, t, k, share, options.theta_den, Ghost(h))
            } else {
                0
            };
            v_osc.push(osc);
            if t_stag.is_none() && ready && weight > 0 && osc >= options.n_min_default {
                t_stag = Some(t);
            }
            if options.collect_sign_trajectory {
                rows.push(pack_signs(&hist[t]));
            }
            i += 1;
        }
        if max_iter == 0 {
            success = self.check_convergence(detectors, &decoded_detectors);
        }
        let snapshot_times: Vec<usize> = sorted_positive(&options.snapshot_times);
        let abs_m_snapshots: Option<Vec<Vec<i64>>> = if snapshot_times.len() == 0 {
            None
        } else {
            Some(take_snapshots(&hist, &snapshot_times))
        };
        let result: DecodeResult = self.build_result(success, decoded_detectors, max_iter);
        let metrics = Step1Metrics {
            variable_count: n,
            w_sigma,
            delta_hd,
            m_history: hist,
            delta_m_squares,
            m_squares,
            m_magnitudes,
            low_0_count,
            low_1_count,
            f_endpoint,
            v_osc,
            t_stag,
            sign_trajectory_packed: if options.collect_sign_trajectory {
                Some(rows)
            } else {
                None
            },
            sign_bytes_per_iter: sign_bytes(n),
            abs_m_snapshots,
            snapshot_times,
        };
        proof {
            assert(h =~= views(metrics.m_history@));
            assert(h.len() == i + 1);
            let o = *options;
            assert(metrics.w_sigma@ =~= Seq::new(
                i as nat,
                |x: int| o.w_sigma(d, detectors@, h, x + 1) as usize,
            ));
            assert(metrics.delta_hd@ =~= Seq::new(i as nat, |x: int| o.delta_hd(h, x + 1) as usize));
            assert(metrics.delta_m_squares@ =~= Seq::new(
                i as nat,
                |x: int| capped(squares_below(h[x + 1], h[x], d.cols() as int)) as u128,
            ));
            assert(metrics.m_squares@ =~= Seq::new(
                i as nat,
                |x: int|
                    capped(squares_below(h[x + 1], origin(h[x + 1]), d.cols() as int)) as u128,
            ));
            assert(metrics.m_magnitudes@ =~= Seq::new(
                i as nat,
                |x: int| magnitudes_below(h[x + 1], d.cols() as int) as u128,
            ));
            assert(metrics.low_0_count@ =~= Seq::new(
                i as nat,
                |x: int| count_low(h[x + 1], abs(o.low_threshold_0 as int), d.cols() as int) as usize,
            ));
            assert(metrics.low_1_count@ =~= Seq::new(
                i as nat,
                |x: int| count_low(h[x + 1], abs(o.low_threshold_1 as int), d.cols() as int) as usize,
            ));
            assert(metrics.f_endpoint@ =~= Seq::new(i as nat, |x: int| o.f_endpoint(h, x + 1) as usize));
            assert(metrics.v_osc@ =~= Seq::new(i as nat, |x: int| o.v_osc(h, x + 1) as usize));
            assert forall|t: int|
                0 <= t < h.len() implies h[t] == (#[trigger] metrics.m_history@[t])@ by {}
        }
        (result, metrics)
    }
}

} // verus!
