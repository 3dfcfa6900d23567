//! What the metrics of a decoding count.

use vstd::prelude::*;

use crate::arith::{abs, capped};
use crate::laws::dual::errors_of;
use crate::laws::legs::{thrown, walks};
use crate::matrix::Bit;
use crate::min_sum::{coins_at, hard_decision, BpModel};
use crate::step1::{
    count_low, count_ne, flips, magnitudes_below, oscillating, packed, packed_row, posteriors,
    signs, squares_below, Step1Metrics, Step1Options,
};

verus! {

/// The places in which two lists differ.
pub open spec fn differences<T>(a: Seq<T>, b: Seq<T>, n: int) -> Set<int> {
    Set::new(|i: int| 0 <= i < n && a[i] != b[i])
}

proof fn lemma_count_ne<T>(a: Seq<T>, b: Seq<T>, n: int)
    requires
        n >= 0,
    ensures
        differences(a, b, n).finite(),
        count_ne(a, b, n) == differences(a, b, n).len(),
    decreases n,
{
    let s = differences(a, b, n);
    if n == 0 {
        assert(s =~= Set::empty());
    } else {
        lemma_count_ne(a, b, n - 1);
        let t = differences(a, b, n - 1);
        assert(!t.contains(n - 1));
        if a[n - 1] != b[n - 1] {
            assert(s =~= t.insert(n - 1));
        } else {
            assert(s =~= t);
        }
    }
}

/// The places of the values of magnitude less than `threshold`.
pub open spec fn small(values: Seq<i64>, threshold: int, n: int) -> Set<int> {
    Set::new(|v: int| 0 <= v < n && abs(values[v] as int) < threshold)
}

proof fn lemma_count_low(values: Seq<i64>, threshold: int, n: int)
    requires
        n >= 0,
    ensures
        small(values, threshold, n).finite(),
        count_low(values, threshold, n) == small(values, threshold, n).len(),
    decreases n,
{
    let s = small(values, threshold, n);
    if n == 0 {
        assert(s =~= Set::empty());
    } else {
        lemma_count_low(values, threshold, n - 1);
        let t = small(values, threshold, n - 1);
        assert(!t.contains(n - 1));
        if abs(values[n - 1] as int) < threshold {
            assert(s =~= t.insert(n - 1));
        } else {
            assert(s =~= t);
        }
    }
}

/// The iterations after `from` up to `to` at which the sign of variable `v` changed.
pub open spec fn sign_changes(h: Seq<Seq<i64>>, v: int, from: int, to: int) -> Set<int> {
    Set::new(|t: int| from < t <= to && (h[t][v] >= 0) != (h[t - 1][v] >= 0))
}

proof fn lemma_flips(h: Seq<Seq<i64>>, v: int, from: int, to: int)
    requires
        from <= to,
    ensures
        sign_changes(h, v, from, to).finite(),
        flips(h, v, from, to) == sign_changes(h, v, from, to).len(),
    decreases to - from,
{
    let s = sign_changes(h, v, from, to);
    if to == from {
        assert(s =~= Set::empty());
    } else {
        lemma_flips(h, v, from, to - 1);
        let t = sign_changes(h, v, from, to - 1);
        assert(!t.contains(to));
        if (h[to][v] >= 0) != (h[to - 1][v] >= 0) {
            assert(s =~= t.insert(to));
        } else {
            assert(s =~= t);
        }
    }
}

/// The variables whose sign changed in more than the share `num / den` of the `k` iterations up
/// to `t`.
pub open spec fn restless(
    h: Seq<Seq<i64>>,
    t: int,
    k: int,
    num: int,
    den: int,
    n: int,
) -> Set<int> {
    Set::new(|v: int| 0 <= v < n && sign_changes(h, v, t - k, t).len() * den > num * k)
}

proof fn lemma_oscillating(h: Seq<Seq<i64>>, t: int, k: int, num: int, den: int, n: int)
    requires
        n >= 0,
        k >= 0,
    ensures
        restless(h, t, k, num, den, n).finite(),
        oscillating(h, t, k, num, den, n) == restless(h, t, k, num, den, n).len(),
    decreases n,
{
    let s = restless(h, t, k, num, den, n);
    if n == 0 {
        assert(s =~= Set::empty());
    } else {
        lemma_oscillating(h, t, k, num, den, n - 1);
        lemma_flips(h, n - 1, t - k, t);
        let r = restless(h, t, k, num, den, n - 1);
        assert(!r.contains(n - 1));
        if sign_changes(h, n - 1, t - k, t).len() * den > num * k {
            assert(s =~= r.insert(n - 1));
        } else {
            assert(s =~= r);
        }
    }
}

/// What the metrics of iteration `i + 1` count: the detectors that the decoding does not
/// explain, the bits that changed, the posteriors below each threshold, the signs that differ
/// from those a lag earlier, and the variables whose sign is restless.
pub proof fn law_metrics(
    metrics: Step1Metrics,
    o: Step1Options,
    d: BpModel,
    det: Seq<Bit>,
    h: Seq<Seq<i64>>,
    i: int,
)
    requires
        metrics.observes(o, d, det, h),
        0 <= i < h.len() - 1,
        d.cols() <= usize::MAX,
        det.len() <= usize::MAX,
        forall|t: int| 0 <= t < h.len() ==> (#[trigger] h[t]).len() == d.cols(),
    ensures
        ({
            let now = h[i + 1];
            let cols = d.cols() as int;
            let lag: int = if o.endpoint_k == 0 {
                1
            } else {
                o.endpoint_k as int
            };
            let window: int = if o.k_default == 0 {
                1
            } else {
                o.k_default as int
            };
            let share: int = if o.theta_num <= o.theta_den {
                o.theta_num as int
            } else {
                o.theta_den as int
            };
            &&& metrics.w_sigma[i] == differences(
                det,
                d.matrix.mul_mod2(errors_of(now)),
                det.len() as int,
            ).len()
            &&& metrics.delta_hd[i] == differences(errors_of(now), errors_of(h[i]), cols).len()
            &&& metrics.low_0_count[i] == small(now, abs(o.low_threshold_0 as int), cols).len()
            &&& metrics.low_1_count[i] == small(now, abs(o.low_threshold_1 as int), cols).len()
            &&& i + 1 < lag ==> metrics.f_endpoint[i] == 0
            &&& i + 1 >= lag ==> metrics.f_endpoint[i] == differences(
                signs(now),
                signs(h[i + 1 - lag]),
                cols,
            ).len()
            &&& i + 1 < o.t_warmup + window ==> metrics.v_osc[i] == 0
            &&& i + 1 >= o.t_warmup + window ==> metrics.v_osc[i] == restless(
                h,
                i + 1,
                window,
                share,
                o.theta_den as int,
                cols,
            ).len()
            &&& forall|v: int| 0 <= v < cols ==> #[trigger] signs(now)[v] == (now[v] < 0)
        }),
{
    let now = h[i + 1];
    let cols = d.cols() as int;
    assert(h[i].len() == cols && now.len() == cols);
    assert(errors_of(now) =~= hard_decision(now));
    assert(errors_of(h[i]) =~= hard_decision(h[i]));
    let syndrome = d.matrix.mul_mod2(errors_of(now));
    lemma_count_ne(det, syndrome, det.len() as int);
    lemma_bound(det, syndrome, det.len() as int);
    lemma_count_ne(errors_of(now), errors_of(h[i]), cols);
    lemma_bound(errors_of(now), errors_of(h[i]), cols);
    lemma_count_low(now, abs(o.low_threshold_0 as int), cols);
    lemma_count_low(now, abs(o.low_threshold_1 as int), cols);
    lemma_low_bound(now, abs(o.low_threshold_0 as int), cols);
    lemma_low_bound(now, abs(o.low_threshold_1 as int), cols);
    if i + 1 >= o.lag() {
        lemma_count_ne(signs(now), signs(h[i + 1 - o.lag()]), cols);
        lemma_bound(signs(now), signs(h[i + 1 - o.lag()]), cols);
    }
    let den = o.theta_den as int;
    if i + 1 >= o.t_warmup + o.window() {
        lemma_oscillating(h, i + 1, o.window(), o.share(), den, cols);
        lemma_osc_bound(h, i + 1, o.window(), o.share(), den, cols);
    }
}

proof fn lemma_bound<T>(a: Seq<T>, b: Seq<T>, n: int)
    requires
        n >= 0,
    ensures
        count_ne(a, b, n) <= n,
    decreases n,
{
    if n > 0 {
        lemma_bound(a, b, n - 1);
    }
}

proof fn lemma_low_bound(values: Seq<i64>, threshold: int, n: int)
    requires
        n >= 0,
    ensures
        count_low(values, threshold, n) <= n,
    decreases n,
{
    if n > 0 {
        lemma_low_bound(values, threshold, n - 1);
    }
}

proof fn lemma_osc_bound(h: Seq<Seq<i64>>, t: int, k: int, num: int, den: int, n: int)
    requires
        n >= 0,
    ensures
        oscillating(h, t, k, num, den, n) <= n,
    decreases n,
{
    if n > 0 {
        lemma_osc_bound(h, t, k, num, den, n - 1);
    }
}

/// Decoding stagnates at the first iteration, once the window is full, at which some detector
/// is not explained and enough variables are restless.
pub proof fn law_stagnation(
    metrics: Step1Metrics,
    o: Step1Options,
    d: BpModel,
    det: Seq<Bit>,
    h: Seq<Seq<i64>>,
)
    requires
        metrics.observes(o, d, det, h),
        0 < h.len() <= usize::MAX,
    ensures
        ({
            let full = |t: int| t >= o.t_warmup + o.window();
            let stuck = |t: int|
                full(t) && o.w_sigma(d, det, h, t) > 0 && o.v_osc(h, t) >= o.n_min_default;
            match metrics.t_stag {
                Some(t) => {
                    &&& 0 < t < h.len()
                    &&& stuck(t as int)
                    &&& forall|k: int| 0 < k < t ==> !#[trigger] stuck(k)
                },
                None => forall|k: int| 0 < k < h.len() ==> !#[trigger] stuck(k),
            }
        }),
{
    lemma_stag(o, d, det, h, h.len() - 1);
    let full = |t: int| t >= o.t_warmup + o.window();
    let stuck = |t: int|
        full(t) && o.w_sigma(d, det, h, t) > 0 && o.v_osc(h, t) >= o.n_min_default;
    assert forall|k: int| #[trigger] stuck(k) == o.stagnates(d, det, h, k) by {}
}

proof fn lemma_stag(o: Step1Options, d: BpModel, det: Seq<Bit>, h: Seq<Seq<i64>>, t: int)
    requires
        0 <= t <= usize::MAX,
    ensures
        match o.t_stag(d, det, h, t) {
            Some(f) => {
                &&& 0 < f <= t
                &&& o.stagnates(d, det, h, f as int)
                &&& forall|k: int| 0 < k < f ==> !#[trigger] o.stagnates(d, det, h, k)
            },
            None => forall|k: int| 0 < k <= t ==> !#[trigger] o.stagnates(d, det, h, k),
        },
    decreases t,
{
    if t > 0 {
        lemma_stag(o, d, det, h, t - 1);
    }
}

/// Sums of squared distances and of magnitudes, variable by variable.
pub proof fn law_norms(a: Seq<i64>, b: Seq<i64>, n: int)
    requires
        0 <= n,
    ensures
        squares_below(a, b, 0) == 0,
        squares_below(a, b, n + 1) == squares_below(a, b, n) + (a[n] - b[n]) * (a[n] - b[n]),
        magnitudes_below(a, 0) == 0,
        magnitudes_below(a, n + 1) == magnitudes_below(a, n) + abs(a[n] as int),
        forall|x: int| #[trigger] capped(x) <= u128::MAX && (x <= u128::MAX ==> capped(x) == x),
{
}

/// Signs are packed eight to a byte, the first in the highest bit: reading a bit back gives
/// the sign, and the bits past the end are not set.
pub proof fn law_packed(s: Seq<bool>, b: int, i: int)
    requires
        0 <= b < (s.len() + 7) / 8,
        0 <= i < 8,
    ensures
        packed_row(s).len() == (s.len() + 7) / 8,
        (packed_row(s)[b] as int / vstd::arithmetic::power2::pow2((7 - i) as nat) as int) % 2 == (
        if 8 * b + i < s.len() && s[8 * b + i] {
            1int
        } else {
            0
        }),
{
    reveal_with_fuel(packed, 9);
    vstd::arithmetic::power2::lemma2_to64();
    let p = packed(s, 8 * b, 8);
    assert(0 <= p < 256);
    assert(packed_row(s)[b] as int == p);
    if i == 0 {
        assert((p / 128) % 2 == packed(s, 8 * b, 1));
    } else if i == 1 {
        assert(p / 64 == packed(s, 8 * b, 2));
    } else if i == 2 {
        assert(p / 32 == packed(s, 8 * b, 3));
    } else if i == 3 {
        assert(p / 16 == packed(s, 8 * b, 4));
    } else if i == 4 {
        assert(p / 8 == packed(s, 8 * b, 5));
    } else if i == 5 {
        assert(p / 4 == packed(s, 8 * b, 6));
    } else if i == 6 {
        assert(p / 2 == packed(s, 8 * b, 7));
    } else {
        assert(p / 1 == p);
    }
}

proof fn lemma_posteriors_path(
    d: BpModel,
    det: Seq<Bit>,
    coins: Seq<Vec<bool>>,
    n: nat,
) -> (path: Seq<BpModel>)
    ensures
        ({
            let h = posteriors(d, det, coins, n);
            &&& walks(path, det, coins)
            &&& path[0] == d
            &&& path.len() == h.len() + 1
            &&& forall|k: int| 0 <= k < h.len() ==> #[trigger] h[k] == path[k + 1].posterior
        }),
    decreases n,
{
    if n == 0 {
        seq![d]
    } else {
        let next = d.iterate(det, thrown(coins, d.iteration)).counted();
        assert(thrown(coins, d.iteration) == coins_at(coins, d.iteration as int));
        let h = posteriors(d, det, coins, n);
        if next.converged(det) {
            let path = seq![d, next];
            assert(h =~= seq![next.posterior]);
            path
        } else {
            let rest = lemma_posteriors_path(next, det, coins, (n - 1) as nat);
            let path = seq![d] + rest;
            let t = posteriors(next, det, coins, (n - 1) as nat);
            assert(h =~= seq![next.posterior] + t);
            assert forall|k: int| 0 < k < path.len() implies #[trigger] path[k] == (BpModel {
                iteration: path[k - 1].iteration + 1,
                ..path[k - 1].iterate(det, thrown(coins, path[k - 1].iteration))
            }) by {
                assert(path[k] == rest[k - 1]);
                if k > 1 {
                    assert(path[k - 1] == rest[k - 2]);
                }
            }
            assert forall|k: int| 0 <= k < h.len() implies #[trigger] h[k] == path[k + 1].posterior by {
                if k > 0 {
                    assert(h[k] == t[k - 1]);
                    assert(path[k + 1] == rest[k]);
                }
            }
            path
        }
    }
}

/// The posteriors observed are those that decoding goes through, iteration by iteration.
pub proof fn law_observed_posteriors(d: BpModel, det: Seq<Bit>, coins: Seq<Vec<bool>>)
    ensures
        ({
            let h = posteriors(d.initialized(), det, coins, d.config.max_iter as nat);
            exists|path: Seq<BpModel>|
                {
                    &&& #[trigger] walks(path, det, coins)
                    &&& path[0] == d.initialized()
                    &&& path.len() == h.len() + 1
                    &&& forall|k: int| 0 <= k < h.len() ==> #[trigger] h[k] == path[k + 1].posterior
                }
        }),
{
    let path = lemma_posteriors_path(d.initialized(), det, coins, d.config.max_iter as nat);
}

} // verus!
