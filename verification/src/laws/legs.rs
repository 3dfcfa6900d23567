//! Which iterations a decoding or a leg of it goes through.

use vstd::prelude::*;

use crate::decoder::{decoding_quality, ResultModel};
use crate::matrix::Bit;
use crate::min_sum::{coins_at, BpModel};
use crate::relay::{best_leg, lemma_successes, lightest, relayed, successes, total_iterations};

verus! {

/// The coins thrown for iteration `t`; none where the list has ended.
pub open spec fn thrown(coins: Seq<Vec<bool>>, t: nat) -> Seq<bool> {
    if t < coins.len() {
        coins[t as int]@
    } else {
        Seq::empty()
    }
}

/// Whether the decoding of a state has the syndrome `det`.
pub open spec fn explains(d: BpModel, det: Seq<Bit>) -> bool {
    d.matrix.mul_mod2(d.decoding) == det
}

/// Two states that differ in the count of iterations at most.
pub open spec fn alike(a: BpModel, b: BpModel) -> bool {
    a == (BpModel { iteration: a.iteration, ..b })
}

/// Each state of `path` comes from the one before by one iteration.
pub open spec fn walks(path: Seq<BpModel>, det: Seq<Bit>, coins: Seq<Vec<bool>>) -> bool {
    &&& path.len() > 0
    &&& forall|k: int|
        0 < k < path.len() ==> #[trigger] path[k] == (BpModel {
            iteration: path[k - 1].iteration + 1,
            ..path[k - 1].iterate(det, thrown(coins, path[k - 1].iteration))
        })
}

/// Iterating from `start` ends in `end` after `steps` iterations: at the first state that
/// explains the detectors, or after `n` iterations if there is none.
pub open spec fn ends_in(
    start: BpModel,
    end: BpModel,
    det: Seq<Bit>,
    coins: Seq<Vec<bool>>,
    n: nat,
    steps: nat,
) -> bool {
    exists|path: Seq<BpModel>|
        {
            &&& #[trigger] walks(path, det, coins)
            &&& path.len() == steps + 1
            &&& path[0] == start
            &&& alike(path[steps as int], end)
            &&& steps <= n
            &&& forall|k: int| 0 < k < steps ==> !explains(#[trigger] path[k], det)
            &&& steps < n ==> steps > 0 && explains(end, det)
        }
}

/// `r` tells of a leg of at most `n` iterations that ended in `end` after `steps` of them.
pub open spec fn reports(r: ResultModel, end: BpModel, det: Seq<Bit>, n: nat, steps: nat) -> bool {
    &&& r.decoding == end.decoding
    &&& r.posterior == end.posterior
    &&& r.decoded_detectors == end.matrix.mul_mod2(end.decoding)
    &&& r.success == explains(end, det)
    &&& r.success ==> r.quality == decoding_quality(end.config.priors, end.decoding)
    &&& !r.success ==> r.quality == i128::MAX
    &&& r.iterations == steps
    &&& r.max_iter == n
    &&& r.gap is None
}

proof fn lemma_longer(
    start: BpModel,
    second: BpModel,
    end: BpModel,
    det: Seq<Bit>,
    coins: Seq<Vec<bool>>,
    n: nat,
    steps: nat,
)
    requires
        n > 0,
        second == (BpModel {
            iteration: start.iteration + 1,
            ..start.iterate(det, thrown(coins, start.iteration))
        }),
        !explains(second, det),
        ends_in(second, end, det, coins, (n - 1) as nat, steps),
    ensures
        ends_in(start, end, det, coins, n, steps + 1),
{
    let path = choose|path: Seq<BpModel>|
        {
            &&& #[trigger] walks(path, det, coins)
            &&& path.len() == steps + 1
            &&& path[0] == second
            &&& alike(path[steps as int], end)
            &&& steps <= n - 1
            &&& forall|k: int| 0 < k < steps ==> !explains(#[trigger] path[k], det)
            &&& steps < n - 1 ==> steps > 0 && explains(end, det)
        };
    let longer = seq![start] + path;
    assert forall|k: int| 0 < k < longer.len() implies #[trigger] longer[k] == (BpModel {
        iteration: longer[k - 1].iteration + 1,
        ..longer[k - 1].iterate(det, thrown(coins, longer[k - 1].iteration))
    }) by {
        assert(longer[k] == path[k - 1]);
        if k > 1 {
            assert(longer[k - 1] == path[k - 2]);
        }
    }
    assert(walks(longer, det, coins));
    assert forall|k: int| 0 < k < steps + 1 implies !explains(#[trigger] longer[k], det) by {
        assert(longer[k] == path[k - 1]);
        if k > 1 {
            assert(!explains(path[k - 1], det));
        }
    }
    assert(longer[steps as int + 1] == path[steps as int]);
}

proof fn lemma_shortest(start: BpModel, det: Seq<Bit>, coins: Seq<Vec<bool>>, n: nat)
    requires
        n > 0,
        explains(start.iterate(det, thrown(coins, start.iteration)), det),
    ensures
        ends_in(
            start,
            start.iterate(det, thrown(coins, start.iteration)),
            det,
            coins,
            n,
            1,
        ),
        ends_in(
            start,
            start.iterate(det, thrown(coins, start.iteration)).counted(),
            det,
            coins,
            n,
            1,
        ),
{
    let next = start.iterate(det, thrown(coins, start.iteration)).counted();
    let path = seq![start, next];
    assert(walks(path, det, coins));
}

/// Settling goes through iterations until the first state that explains the detectors.
pub proof fn lemma_settle(d: BpModel, det: Seq<Bit>, coins: Seq<Vec<bool>>, n: nat) -> (steps: nat)
    ensures
        ends_in(d, d.settle(det, coins, n), det, coins, n, steps),
        d.settle(det, coins, n).iteration + (if steps > 0 && explains(
            d.settle(det, coins, n),
            det,
        ) {
            1nat
        } else {
            0
        }) == d.iteration + steps,
    decreases n,
{
    if n == 0 {
        assert(walks(seq![d], det, coins));
        0
    } else {
        let next = d.iterate(det, thrown(coins, d.iteration));
        assert(thrown(coins, d.iteration) == coins_at(coins, d.iteration as int));
        if next.converged(det) {
            lemma_shortest(d, det, coins, n);
            1
        } else {
            let steps = lemma_settle(next.counted(), det, coins, (n - 1) as nat);
            lemma_longer(
                d,
                next.counted(),
                d.settle(det, coins, n),
                det,
                coins,
                n,
                steps,
            );
            if steps == 0 {
                lemma_no_steps(next.counted(), d.settle(det, coins, n), det, coins, (n - 1) as nat);
            }
            steps + 1
        }
    }
}

proof fn lemma_no_steps(
    start: BpModel,
    end: BpModel,
    det: Seq<Bit>,
    coins: Seq<Vec<bool>>,
    n: nat,
)
    requires
        ends_in(start, end, det, coins, n, 0),
    ensures
        alike(start, end),
{
}

/// Running goes through iterations until the first state that explains the detectors.
pub proof fn lemma_run(d: BpModel, det: Seq<Bit>, coins: Seq<Vec<bool>>, n: nat) -> (steps: nat)
    ensures
        ends_in(d, d.run(det, coins, n), det, coins, n, steps),
        d.run(det, coins, n).iteration == d.iteration + steps,
    decreases n,
{
    if n == 0 {
        assert(walks(seq![d], det, coins));
        0
    } else {
        let next = d.iterate(det, thrown(coins, d.iteration)).counted();
        assert(thrown(coins, d.iteration) == coins_at(coins, d.iteration as int));
        if next.converged(det) {
            lemma_shortest(d, det, coins, n);
            1
        } else {
            let steps = lemma_run(next, det, coins, (n - 1) as nat);
            lemma_longer(d, next, d.run(det, coins, n), det, coins, n, steps);
            steps + 1
        }
    }
}

/// Decoding iterates from the start until the decoding explains the detectors, as often as
/// the parameters allow, and tells of the state that it ended in.
pub proof fn law_decoding(d: BpModel, det: Seq<Bit>, coins: Seq<Vec<bool>>)
    requires
        d.wf(),
    ensures
        exists|end: BpModel, steps: nat|
            {
                &&& #[trigger] ends_in(
                    d.initialized(),
                    end,
                    det,
                    coins,
                    d.config.max_iter as nat,
                    steps,
                )
                &&& reports(d.decoded(det, coins), end, det, d.config.max_iter as nat, steps)
            },
{
    let n = d.config.max_iter as nat;
    let steps = lemma_run(d.initialized(), det, coins, n);
    let end = d.initialized().run(det, coins, n);
    assert(ends_in(d.initialized(), end, det, coins, n, steps));
}

/// The number of legs that converged and the iterations of all legs, leg by leg.
pub proof fn law_counting(legs: Seq<ResultModel>, leg: ResultModel)
    ensures
        successes(Seq::<ResultModel>::empty()) == 0,
        successes(legs.push(leg)) == successes(legs) + (if leg.success {
            1nat
        } else {
            0
        }),
        total_iterations(Seq::<ResultModel>::empty()) == 0,
        total_iterations(legs.push(leg)) == total_iterations(legs) + leg.iterations,
{
    assert(legs.push(leg).drop_last() =~= legs);
}

/// `b` is the first of least weight among the legs that converged.
pub open spec fn first_lightest(legs: Seq<ResultModel>, b: int) -> bool {
    &&& 0 <= b < legs.len()
    &&& legs[b].success
    &&& forall|l: int|
        0 <= l < legs.len() && (#[trigger] legs[l]).success ==> {
            &&& legs[b].quality <= legs[l].quality
            &&& l < b ==> legs[b].quality < legs[l].quality
        }
}

proof fn lemma_first_lightest(legs: Seq<ResultModel>)
    requires
        legs.len() > 0,
        forall|l: int| 0 <= l < legs.len() && !(#[trigger] legs[l]).success ==> legs[l].quality
            == i128::MAX,
        forall|l: int| 0 <= l < legs.len() && (#[trigger] legs[l]).success ==> legs[l].quality
            < i128::MAX,
    ensures
        0 <= best_leg(legs) < legs.len(),
        first_lightest(legs, best_leg(legs)) || (best_leg(legs) == 0 && forall|l: int|
            0 <= l < legs.len() ==> !(#[trigger] legs[l]).success),
    decreases legs.len(),
{
    if legs.len() > 1 {
        let s = legs.drop_last();
        assert forall|l: int| 0 <= l < s.len() && !(#[trigger] s[l]).success implies s[l].quality
            == i128::MAX by {
            assert(s[l] == legs[l]);
        }
        assert forall|l: int| 0 <= l < s.len() && (#[trigger] s[l]).success implies s[l].quality
            < i128::MAX by {
            assert(s[l] == legs[l]);
        }
        lemma_first_lightest(s);
        let b = best_leg(s);
        assert(s[b] == legs[b]);
        let last = legs.len() - 1;
        assert forall|l: int| 0 <= l < last implies legs[l] == #[trigger] s[l] by {}
        if first_lightest(s, b) {
            assert forall|l: int| 0 <= l < last && (#[trigger] legs[l]).success implies legs[b].quality
                <= legs[l].quality && (l < b ==> legs[b].quality < legs[l].quality) by {
                assert(s[l] == legs[l]);
            }
        } else {
            assert forall|l: int| 0 <= l < last implies !(#[trigger] legs[l]).success by {
                assert(s[l] == legs[l]);
            }
            assert(!legs[0].success);
        }
    } else if !legs[0].success {
        assert forall|l: int| 0 <= l < legs.len() implies !(#[trigger] legs[l]).success by {}
    } else {
        assert(first_lightest(legs, 0));
    }
}

/// What is chosen of a list of legs: the first of least weight among those that converged,
/// with the iterations of all. Where none did, a relay decoder takes the first and the others
/// the last.
pub proof fn law_chosen_leg(legs: Seq<ResultModel>)
    requires
        legs.len() > 0,
        forall|l: int| 0 <= l < legs.len() && !(#[trigger] legs[l]).success ==> legs[l].quality
            == i128::MAX,
        forall|l: int| 0 <= l < legs.len() && (#[trigger] legs[l]).success ==> legs[l].quality
            < i128::MAX,
    ensures
        relayed(legs).iterations == total_iterations(legs),
        lightest(legs).iterations == total_iterations(legs),
        (exists|l: int| 0 <= l < legs.len() && (#[trigger] legs[l]).success) ==> exists|b: int|
            {
                &&& #[trigger] first_lightest(legs, b)
                &&& relayed(legs) == (ResultModel {
                    iterations: relayed(legs).iterations,
                    ..legs[b]
                })
                &&& lightest(legs) == relayed(legs)
            },
        (forall|l: int| 0 <= l < legs.len() ==> !(#[trigger] legs[l]).success) ==> {
            &&& relayed(legs) == (ResultModel { iterations: relayed(legs).iterations, ..legs[0] })
            &&& lightest(legs) == (ResultModel {
                iterations: lightest(legs).iterations,
                ..legs[legs.len() - 1]
            })
        },
{
    lemma_first_lightest(legs);
    lemma_successes(legs);
}

/// Repeating `step` from `start` ends in `end` after `steps` of them: at the first state
/// after the start that is `done`, or after `n` steps if there is none.
pub open spec fn runs_to<S>(
    start: S,
    end: S,
    step: spec_fn(S) -> S,
    done: spec_fn(S) -> bool,
    n: nat,
    steps: nat,
) -> bool {
    exists|path: Seq<S>|
        {
            &&& #[trigger] follows(path, step)
            &&& path.len() == steps + 1
            &&& path[0] == start
            &&& path[steps as int] == end
            &&& steps <= n
            &&& forall|k: int| 0 < k < steps ==> !done(#[trigger] path[k])
            &&& steps < n ==> steps > 0 && done(end)
        }
}

/// Each state of `path` comes from the one before by `step`.
pub open spec fn follows<S>(path: Seq<S>, step: spec_fn(S) -> S) -> bool {
    &&& path.len() > 0
    &&& forall|k: int| 0 < k < path.len() ==> #[trigger] path[k] == step(path[k - 1])
}

/// No step was allowed.
pub proof fn lemma_runs_none<S>(start: S, step: spec_fn(S) -> S, done: spec_fn(S) -> bool)
    ensures
        runs_to(start, start, step, done, 0, 0),
{
    assert(follows(seq![start], step));
}

/// The first step was the last.
pub proof fn lemma_runs_once<S>(start: S, step: spec_fn(S) -> S, done: spec_fn(S) -> bool, n: nat)
    requires
        n > 0,
        done(step(start)),
    ensures
        runs_to(start, step(start), step, done, n, 1),
{
    assert(follows(seq![start, step(start)], step));
}

/// One step more at the front.
pub proof fn lemma_runs_longer<S>(
    start: S,
    end: S,
    step: spec_fn(S) -> S,
    done: spec_fn(S) -> bool,
    n: nat,
    steps: nat,
)
    requires
        n > 0,
        !done(step(start)),
        runs_to(step(start), end, step, done, (n - 1) as nat, steps),
    ensures
        runs_to(start, end, step, done, n, steps + 1),
{
    let path = choose|path: Seq<S>|
        {
            &&& #[trigger] follows(path, step)
            &&& path.len() == steps + 1
            &&& path[0] == step(start)
            &&& path[steps as int] == end
            &&& steps <= n - 1
            &&& forall|k: int| 0 < k < steps ==> !done(#[trigger] path[k])
            &&& steps < n - 1 ==> steps > 0 && done(end)
        };
    let longer = seq![start] + path;
    assert forall|k: int| 0 < k < longer.len() implies #[trigger] longer[k] == step(
        longer[k - 1],
    ) by {
        assert(longer[k] == path[k - 1]);
        if k > 1 {
            assert(longer[k - 1] == path[k - 2]);
        }
    }
    assert(follows(longer, step));
    assert forall|k: int| 0 < k < steps + 1 implies !done(#[trigger] longer[k]) by {
        assert(longer[k] == path[k - 1]);
        if k > 1 {
            assert(!done(path[k - 1]));
        }
    }
    assert(longer[steps as int + 1] == path[steps as int]);
}

/// Taking the steps from number `first` on, `n` being the number after the last, leads from
/// `start` to `end` through `path`: to the first state after the start that is `done`, or
/// through all steps if there is none.
pub open spec fn passes<S>(
    path: Seq<S>,
    start: S,
    end: S,
    step: spec_fn(int, S) -> S,
    done: spec_fn(S) -> bool,
    first: int,
    n: int,
) -> bool {
    &&& path.len() > 0
    &&& path[0] == start
    &&& path[path.len() - 1] == end
    &&& forall|k: int|
        0 < k < path.len() ==> #[trigger] path[k] == step(first + k - 1, path[k - 1])
    &&& forall|k: int| 0 < k < path.len() - 1 ==> !done(#[trigger] path[k])
    &&& path.len() > 1 ==> first + path.len() - 1 <= n
    &&& first + path.len() - 1 < n ==> path.len() > 1 && done(end)
}

/// No step is left.
pub proof fn lemma_passes_none<S>(
    start: S,
    step: spec_fn(int, S) -> S,
    done: spec_fn(S) -> bool,
    first: int,
    n: int,
)
    requires
        first >= n,
    ensures
        passes(seq![start], start, start, step, done, first, n),
{
}

/// The first step was the last.
pub proof fn lemma_passes_once<S>(
    start: S,
    step: spec_fn(int, S) -> S,
    done: spec_fn(S) -> bool,
    first: int,
    n: int,
)
    requires
        first < n,
        done(step(first, start)),
    ensures
        passes(
            seq![start, step(first, start)],
            start,
            step(first, start),
            step,
            done,
            first,
            n,
        ),
{
}

/// One step more at the front.
pub proof fn lemma_passes_longer<S>(
    path: Seq<S>,
    start: S,
    end: S,
    step: spec_fn(int, S) -> S,
    done: spec_fn(S) -> bool,
    first: int,
    n: int,
)
    requires
        first < n,
        !done(step(first, start)),
        passes(path, step(first, start), end, step, done, first + 1, n),
    ensures
        passes(seq![start] + path, start, end, step, done, first, n),
{
    let longer = seq![start] + path;
    assert forall|k: int| 0 < k < longer.len() implies #[trigger] longer[k] == step(
        first + k - 1,
        longer[k - 1],
    ) by {
        assert(longer[k] == path[k - 1]);
        if k > 1 {
            assert(longer[k - 1] == path[k - 2]);
            assert(path[k - 1] == step(first + 1 + (k - 1) - 1, path[k - 2]));
        }
    }
    assert forall|k: int| 0 < k < longer.len() - 1 implies !done(#[trigger] longer[k]) by {
        assert(longer[k] == path[k - 1]);
        if k > 1 {
            assert(!done(path[k - 1]));
        }
    }
    assert(longer[longer.len() - 1] == path[path.len() - 1]);
}

} // verus!
