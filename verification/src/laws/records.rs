//! What is recorded of legs and searches, and how numbers are told.

use vstd::prelude::*;

use crate::decoder::{negatives_below, LegsModel, ResultModel};
use crate::laws::iteration::rounded;
use crate::logistic::{decay, logistic_share, DECAY_ONE, DECAY_STEP};
use crate::matrix::{Bit, MatrixModel};
use crate::order::{increasing, law_sorted_set};
use crate::slg_mbp::adapt::SLGMBPDecoder;
use crate::slg_mbp::trace::{
    picked, rise, scored, spike_trace, steepest_below, touched_below, unexplained,
    unexplained_below,
};
use crate::text::{digit, digits, gap_text, millionths, places, power_of_ten};

verus! {

/// The places of negative values.
pub open spec fn below_zero(values: Seq<i64>, n: int) -> Set<int> {
    Set::new(|v: int| 0 <= v < n && values[v] < 0)
}

proof fn lemma_negatives(values: Seq<i64>, n: int)
    requires
        n >= 0,
    ensures
        below_zero(values, n).finite(),
        negatives_below(values, n) == below_zero(values, n).len(),
        negatives_below(values, n) <= n,
    decreases n,
{
    let s = below_zero(values, n);
    if n == 0 {
        assert(s =~= Set::empty());
    } else {
        lemma_negatives(values, n - 1);
        let t = below_zero(values, n - 1);
        assert(!t.contains(n - 1));
        if values[n - 1] < 0 {
            assert(s =~= t.insert(n - 1));
        } else {
            assert(s =~= t);
        }
    }
}

/// The record of legs holds of each whether it converged, its iterations, the number of its
/// negative posteriors, its estimate and its posteriors, in order.
pub proof fn law_legs_recorded(legs: Seq<ResultModel>, l: int)
    requires
        0 <= l < legs.len(),
        legs[l].iterations <= usize::MAX,
        legs[l].posterior.len() <= usize::MAX,
    ensures
        ({
            let r = LegsModel::of(legs);
            let n = legs[l].posterior.len() as int;
            &&& r.success.len() == legs.len()
            &&& r.iterations.len() == legs.len()
            &&& r.negatives.len() == legs.len()
            &&& r.decodings.len() == legs.len()
            &&& r.posteriors.len() == legs.len()
            &&& r.success[l] == legs[l].success
            &&& r.iterations[l] == legs[l].iterations
            &&& r.negatives[l] == below_zero(legs[l].posterior, n).len()
            &&& r.decodings[l] == legs[l].decoding
            &&& r.posteriors[l] == legs[l].posterior
        }),
    decreases legs.len(),
{
    lemma_negatives(legs[l].posterior, legs[l].posterior.len() as int);
    let t = legs.drop_last();
    lemma_recorded_lengths(t);
    if l < t.len() {
        assert(t[l] == legs[l]);
        law_legs_recorded(t, l);
    }
}

proof fn lemma_recorded_lengths(legs: Seq<ResultModel>)
    ensures
        ({
            let r = LegsModel::of(legs);
            &&& r.success.len() == legs.len()
            &&& r.iterations.len() == legs.len()
            &&& r.negatives.len() == legs.len()
            &&& r.decodings.len() == legs.len()
            &&& r.posteriors.len() == legs.len()
        }),
    decreases legs.len(),
{
    if legs.len() > 0 {
        lemma_recorded_lengths(legs.drop_last());
    }
}

proof fn lemma_unexplained(a: Seq<Bit>, b: Seq<Bit>, n: int)
    requires
        0 <= n <= usize::MAX,
    ensures
        forall|c: usize|
            #[trigger] unexplained_below(a, b, n).contains(c) <==> c < n && a[c as int]
                != b[c as int],
    decreases n,
{
    if n > 0 {
        lemma_unexplained(a, b, n - 1);
        let t = unexplained_below(a, b, n - 1);
        let s = unexplained_below(a, b, n);
        assert forall|c: usize| #[trigger] s.contains(c) <==> c < n && a[c as int] != b[c as int] by {
            if t.contains(c) {
                let k = choose|k: int| 0 <= k < t.len() && t[k] == c;
                assert(s[k] == c);
            }
            if a[n - 1] != b[n - 1] && c == n - 1 {
                assert(s[t.len() as int] == c);
            }
            if s.contains(c) && c != n - 1 {
                let k = choose|k: int| 0 <= k < s.len() && s[k] == c;
                assert(t[k] == c);
            }
        }
    }
}

proof fn lemma_touched(m: MatrixModel, checks: Seq<usize>, n: int)
    requires
        0 <= n <= checks.len(),
    ensures
        forall|v: usize|
            #[trigger] touched_below(m, checks, n).contains(v) <==> exists|k: int|
                0 <= k < n && #[trigger] checks[k] < m.rows && m.row(checks[k] as int).contains(v),
    decreases n,
{
    if n > 0 {
        lemma_touched(m, checks, n - 1);
        let t = touched_below(m, checks, n - 1);
        let s = touched_below(m, checks, n);
        let row = m.row(checks[n - 1] as int);
        assert forall|v: usize| #[trigger] s.contains(v) <==> exists|k: int|
            0 <= k < n && #[trigger] checks[k] < m.rows && m.row(checks[k] as int).contains(v) by {
            if t.contains(v) {
                let i = choose|i: int| 0 <= i < t.len() && t[i] == v;
                assert(s[i] == v);
            }
            if checks[n - 1] < m.rows && row.contains(v) {
                let i = choose|i: int| 0 <= i < row.len() && row[i] == v;
                assert(s[t.len() + i] == v);
            }
            if s.contains(v) && !t.contains(v) {
                let i = choose|i: int| 0 <= i < s.len() && s[i] == v;
                if i < t.len() {
                    assert(t[i] == v);
                } else {
                    assert(row[i - t.len()] == v);
                    assert(row.contains(v));
                    assert(checks[n - 1] < m.rows);
                }
            }
        }
    }
}

/// The surroundings of an estimate are the variables of the checks that it does not explain,
/// once each and in increasing order.
pub proof fn law_surroundings(dec: SLGMBPDecoder, det: Seq<Bit>, decoding: Seq<Bit>)
    requires
        det.len() == dec.check_matrix@.rows,
        dec.check_matrix@.rows <= usize::MAX,
    ensures
        ({
            let m = dec.check_matrix@;
            let r = dec.surroundings(det, decoding);
            &&& increasing(r)
            &&& forall|v: usize|
                #[trigger] r.contains(v) <==> exists|c: int|
                    {
                        &&& 0 <= c < m.rows
                        &&& m.mul_mod2(decoding)[c] != det[c]
                        &&& #[trigger] m.row(c).contains(v)
                    }
        }),
{
    let m = dec.check_matrix@;
    let syndrome = m.mul_mod2(decoding);
    let checks = unexplained(syndrome, det);
    lemma_unexplained(syndrome, det, m.rows as int);
    lemma_touched(m, checks, checks.len() as int);
    law_sorted_set(touched_below(m, checks, checks.len() as int));
    let r = dec.surroundings(det, decoding);
    assert forall|v: usize| #[trigger] r.contains(v) <==> exists|c: int|
        {
            &&& 0 <= c < m.rows
            &&& syndrome[c] != det[c]
            &&& #[trigger] m.row(c).contains(v)
        } by {
        if r.contains(v) {
            let k = choose|k: int|
                0 <= k < checks.len() && #[trigger] checks[k] < m.rows && m.row(
                    checks[k] as int,
                ).contains(v);
            assert(checks.contains(checks[k]));
            assert(m.row(checks[k] as int).contains(v));
        }
        if exists|c: int|
            {
                &&& 0 <= c < m.rows
                &&& syndrome[c] != det[c]
                &&& #[trigger] m.row(c).contains(v)
            } {
            let c = choose|c: int|
                {
                    &&& 0 <= c < m.rows
                    &&& syndrome[c] != det[c]
                    &&& #[trigger] m.row(c).contains(v)
                };
            assert(checks.contains(c as usize));
            let k = choose|k: int| 0 <= k < checks.len() && checks[k] == c as usize;
            assert(checks[k] < m.rows);
        }
    }
}

/// The steepest rise that is traced is a rise, and what is traced of it are the three
/// generations before and after, as far as there are any.
pub proof fn law_spike(
    scores: Seq<i128>,
    posteriors: Seq<Seq<i64>>,
    adjacent: Seq<Seq<usize>>,
    memories: Seq<Seq<i64>>,
    gammas: nat,
)
    ensures
        spike_trace(scores, posteriors, adjacent, memories, gammas) matches Some(t) ==> {
            &&& 1 <= t.spike < scores.len()
            &&& t.previous == t.spike - 1
            &&& t.score == scores[t.spike as int]
            &&& t.previous_score == scores[t.spike - 1]
            &&& t.delta == t.score - t.previous_score
            &&& t.delta > 0
            &&& forall|g: int|
                0 < g < scores.len() && scores[g] != i128::MIN && #[trigger] scores[g - 1]
                    != i128::MIN ==> scores[g] - scores[g - 1] <= t.delta
            &&& t.start <= t.spike <= t.end < scores.len()
            &&& t.spike - t.start <= 3
            &&& t.start > 0 ==> t.spike - t.start == 3
            &&& t.end - t.spike <= 3
            &&& t.end + 1 < scores.len() ==> t.end - t.spike == 3
            &&& t.adjacent == adjacent[t.spike as int]
            &&& t.generations.len() == t.end + 1 - t.start
            &&& t.posteriors.len() == t.end + 1 - t.start
            &&& t.memories.len() == t.end + 1 - t.start
            &&& forall|k: int|
                0 <= k < t.generations.len() ==> {
                    &&& #[trigger] t.generations[k] == t.start + k
                    &&& t.posteriors[k] == posteriors[t.start + k]
                    &&& t.memories[k] == memories[t.start + k]
                }
        },
{
    lemma_steepest(scores, scores.len() as int);
}

proof fn lemma_steepest(scores: Seq<i128>, n: int)
    requires
        0 <= n <= scores.len(),
    ensures
        steepest_below(scores, n) matches Some(h) ==> {
            &&& 1 <= h < n
            &&& scored(scores, h)
            &&& forall|g: int|
                0 < g < n && scores[g] != i128::MIN && #[trigger] scores[g - 1] != i128::MIN
                    ==> scores[g] - scores[g - 1] <= rise(scores, h)
        },
        steepest_below(scores, n) is None ==> forall|g: int|
            0 < g < n ==> !(scores[g] != i128::MIN && #[trigger] scores[g - 1] != i128::MIN),
    decreases n,
{
    if n > 1 {
        lemma_steepest(scores, n - 1);
    }
}

/// The posteriors picked for a list of variables.
pub proof fn law_picked(posterior: Seq<i64>, vars: Seq<usize>, k: int)
    requires
        0 <= k < vars.len(),
    ensures
        picked(posterior, vars).len() == vars.len(),
        picked(posterior, vars)[k] == posterior[vars[k] as int],
{
}

/// The shares of the logistic table: the least number of parts of a unit that is not below
/// `1 / (1 + decay)`, where every step leaves the same part of the decay.
pub proof fn law_logistic_shares(k: nat, one: int)
    requires
        one >= 1,
    ensures
        ({
            let share = logistic_share(k, one);
            let d = DECAY_ONE as int;
            &&& share * (d + decay(k)) >= one * d
            &&& (share - 1) * (d + decay(k)) < one * d
        }),
        decay(0) == DECAY_ONE,
        rounded(decay(k + 1), decay(k) * DECAY_STEP, DECAY_ONE as int),
        0 <= decay(k + 1) <= decay(k) <= DECAY_ONE,
{
    lemma_decay(k);
    let d = DECAY_ONE as int;
    let x = decay(k);
    let n = d + x;
    let a = one * d;
    let share = (a + n - 1) / n;
    assert(share * n >= a && (share - 1) * n < a) by (nonlinear_arith)
        requires
            share == (a + n - 1) / n,
            n > 0,
    ;
    let p = x * DECAY_STEP;
    let q = p / d;
    assert(p >= 0) by (nonlinear_arith)
        requires
            p == x * DECAY_STEP,
            x >= 0,
            DECAY_STEP >= 0,
    ;
    assert(q * d <= p < (q + 1) * d) by (nonlinear_arith)
        requires
            q == p / d,
            d > 0,
    ;
    assert(q <= x && q >= 0) by (nonlinear_arith)
        requires
            q == p / d,
            p == x * DECAY_STEP,
            0 <= DECAY_STEP <= d,
            x >= 0,
            d > 0,
    ;
}

proof fn lemma_decay(k: nat)
    ensures
        0 <= decay(k) <= DECAY_ONE,
    decreases k,
{
    if k > 0 {
        lemma_decay((k - 1) as nat);
        let x = decay((k - 1) as nat);
        let d = DECAY_ONE as int;
        let q = x * DECAY_STEP / d;
        assert(0 <= q <= x) by (nonlinear_arith)
            requires
                q == x * DECAY_STEP / d,
                0 <= DECAY_STEP <= d,
                x >= 0,
                d > 0,
        ;
    }
}

/// The number that a character stands for.
pub open spec fn worth(c: char) -> int {
    c as int - '0' as int
}

/// The number that decimal digits stand for.
pub open spec fn read(s: Seq<char>) -> int
    decreases s.len(),
{
    if s.len() == 0 {
        0
    } else {
        10 * read(s.drop_last()) + worth(s.last())
    }
}

/// Reading the digits of a number back gives the number.
pub proof fn law_digits(n: nat)
    ensures
        read(digits(n)) == n,
        digits(n).len() > 0,
    decreases n,
{
    if n < 10 {
        reveal_with_fuel(read, 2);
        let s = seq![digit(n as int)];
        assert(s.drop_last() =~= Seq::empty());
        assert(worth(digit(n as int)) == n);
    } else {
        law_digits(n / 10);
        let s = digits(n / 10);
        let d = digit((n % 10) as int);
        assert(s.push(d).drop_last() =~= s);
        assert(worth(d) == n % 10);
    }
}

/// Reading decimal places back gives the fraction: as many places as are told, and zeros for
/// those that are left out.
pub proof fn law_places(n: nat, count: nat)
    requires
        n < power_of_ten(count),
    ensures
        places(n, count).len() <= count,
        read(places(n, count)) * power_of_ten((count - places(n, count).len()) as nat) == n,
    decreases count,
{
    lemma_power(count);
    if n == 0 || count == 0 {
        assert(places(n, count).len() == 0);
        assert(0 * power_of_ten(count) == 0) by (nonlinear_arith);
    } else {
        let m = (count - 1) as nat;
        let unit = power_of_ten(m);
        lemma_power(m);
        let q = n / unit;
        let rest = n % unit;
        assert(n == q * unit + rest && rest < unit && q < 10) by (nonlinear_arith)
            requires
                q == n / unit,
                rest == n % unit,
                unit > 0,
                n < 10 * unit,
        ;
        law_places(rest, m);
        let tail = places(rest, m);
        let d = digit(q as int);
        assert(worth(d) == q);
        lemma_read_front(d, tail);
        let left = (m - tail.len()) as nat;
        lemma_power_adds(tail.len(), left);
        assert((q * power_of_ten(tail.len()) + read(tail)) * power_of_ten(left) == n)
            by (nonlinear_arith)
            requires
                power_of_ten(tail.len()) * power_of_ten(left) == unit,
                read(tail) * power_of_ten(left) == rest,
                n == q * unit + rest,
        ;
        assert(places(n, count) == seq![d] + tail);
        assert(count - (tail.len() + 1) == left);
    }
}

proof fn lemma_power(n: nat)
    ensures
        power_of_ten(n) > 0,
    decreases n,
{
    if n > 0 {
        lemma_power((n - 1) as nat);
    }
}

proof fn lemma_power_adds(a: nat, b: nat)
    ensures
        power_of_ten(a) * power_of_ten(b) == power_of_ten(a + b),
    decreases a,
{
    if a > 0 {
        lemma_power_adds((a - 1) as nat, b);
        let x = power_of_ten((a - 1) as nat);
        let y = power_of_ten(b);
        assert((10 * x) * y == 10 * (x * y)) by (nonlinear_arith);
    } else {
        assert(1 * power_of_ten(b) == power_of_ten(b)) by (nonlinear_arith);
    }
}

proof fn lemma_read_front(d: char, s: Seq<char>)
    ensures
        read(seq![d] + s) == worth(d) * power_of_ten(s.len()) + read(s),
    decreases s.len(),
{
    let all = seq![d] + s;
    if s.len() == 0 {
        reveal_with_fuel(read, 2);
        assert(all.drop_last() =~= Seq::empty());
        assert(worth(d) * 1 == worth(d)) by (nonlinear_arith);
    } else {
        let t = s.drop_last();
        lemma_read_front(d, t);
        assert(all.drop_last() =~= seq![d] + t);
        let x = power_of_ten(t.len());
        assert(10 * (worth(d) * x) == worth(d) * (10 * x)) by (nonlinear_arith);
    }
}

/// A gap is told as a number of units, with decimal places if it is not whole, that is no
/// further than half a millionth of a unit from it; one as large as can be is told as `inf`.
pub proof fn law_gap_told(gap: int, one: int)
    requires
        one >= 1,
        gap >= 0,
    ensures
        gap == i128::MAX ==> gap_text(gap, one) == "inf"@,
        gap != i128::MAX ==> exists|whole: nat, part: nat|
            #![trigger digits(whole), places(part, 6)]
            {
                let told = 1000000 * whole + part;
                &&& part < 1000000
                &&& part == 0 ==> gap_text(gap, one) == digits(whole)
                &&& part > 0 ==> gap_text(gap, one) == digits(whole) + "."@ + places(part, 6)
                &&& -one <= 2 * (told * one - gap * 1000000) <= one
            },
{
    let rest = gap % one;
    let q = gap / one;
    vstd::arithmetic::div_mod::lemma_fundamental_div_mod(gap, one);
    assert(gap == q * one + rest && 0 <= rest < one && q >= 0) by (nonlinear_arith)
        requires
            gap == one * (gap / one) + gap % one,
            q == gap / one,
            rest == gap % one,
            one >= 1,
            gap >= 0,
    ;
    let micros = millionths(rest, one);
    let x = 2 * rest * 1000000 + one;
    assert(micros * (2 * one) <= x < (micros + 1) * (2 * one) && micros >= 0) by (nonlinear_arith)
        requires
            micros == x / (2 * one),
            x >= 0,
            one >= 1,
    ;
    let whole = (q + micros / 1000000) as nat;
    let part = (micros % 1000000) as nat;
    let told = 1000000 * whole + part;
    assert(told == 1000000 * q + micros);
    assert(told * one - gap * 1000000 == micros * one - rest * 1000000) by (nonlinear_arith)
        requires
            told == 1000000 * q + micros,
            gap == q * one + rest,
    ;
    assert(micros * (2 * one) == 2 * (micros * one)) by (nonlinear_arith);
    assert((micros + 1) * (2 * one) == 2 * (micros * one) + 2 * one) by (nonlinear_arith);
    assert(digits(whole) == digits(whole) && places(part, 6) == places(part, 6));
}

} // verus!
