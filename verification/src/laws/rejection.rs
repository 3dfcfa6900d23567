//! Which errors a rejection decoder makes less likely, and what it concludes.

use vstd::prelude::*;

use crate::decoder::decoding_quality;
use crate::laws::breeding::law_less_comes_first;
use crate::laws::iteration::held;
use crate::matrix::Bit;
use crate::min_sum::{BpModel, ConfigModel};
use crate::order::{increasing, order};
use crate::rejection_decoder::{
    errors_below, errors_of, lemma_errors_below, prior_keys, reweighed, RejectionConfig,
    RejectionModel, StageIterations,
};
use crate::relay::relayed;

verus! {

/// The errors of an estimate are the places of its set bits, in increasing order.
pub proof fn law_errors(bits: Seq<Bit>)
    requires
        bits.len() <= usize::MAX,
    ensures
        increasing(errors_of(bits)),
        forall|v: usize|
            #[trigger] errors_of(bits).contains(v) <==> v < bits.len() && bits[v as int] == 1,
{
    lemma_errors_below(bits, bits.len());
    lemma_errors_all(bits, bits.len());
}

proof fn lemma_errors_all(bits: Seq<Bit>, n: nat)
    requires
        n <= bits.len() <= usize::MAX,
    ensures
        forall|v: usize|
            #[trigger] errors_below(bits, n).contains(v) <==> v < n && bits[v as int] == 1,
    decreases n,
{
    if n > 0 {
        let m = (n - 1) as nat;
        lemma_errors_all(bits, m);
        let t = errors_below(bits, m);
        let s = errors_below(bits, n);
        assert forall|v: usize| #[trigger] s.contains(v) <==> v < n && bits[v as int] == 1 by {
            if t.contains(v) {
                let a = choose|a: int| 0 <= a < t.len() && t[a] == v;
                assert(s[a] == v);
            }
            if bits[n - 1] == 1 && v == n - 1 {
                assert(s[t.len() as int] == v);
            }
            if s.contains(v) && v != n - 1 {
                let a = choose|a: int| 0 <= a < s.len() && s[a] == v;
                assert(t[a] == v);
            }
        }
    }
}

/// How many of `n` errors are chosen: the least number that is not below their share, but one
/// at least and all at most.
pub proof fn law_share(config: RejectionConfig, n: nat)
    requires
        config.wf(),
        n > 0,
    ensures
        ({
            let k = config.share(n);
            &&& 1 <= k <= n
            &&& k < n ==> k * config.k_denominator >= config.k_numerator * n
            &&& k > 1 ==> (k - 1) * config.k_denominator < config.k_numerator * n
        }),
{
    let d = config.k_denominator as int;
    let x = config.k_numerator * n;
    let up = (x + d - 1) / d;
    assert(x >= 0) by (nonlinear_arith)
        requires
            x == config.k_numerator * n,
            config.k_numerator >= 0,
            n >= 0,
    ;
    assert(up * d >= x && (up - 1) * d < x) by (nonlinear_arith)
        requires
            up == (x + d - 1) / d,
            d > 0,
    ;
    let k = config.share(n);
    if k < n && up < 1 {
        assert(1 * d >= up * d) by (nonlinear_arith)
            requires
                up < 1,
                d > 0,
        ;
    }
    if k > 1 && up > n {
        assert((k - 1) * d <= (up - 1) * d) by (nonlinear_arith)
            requires
                k <= up,
                d > 0,
        ;
    }
}

/// Where the most likely errors are chosen, none that is left has a lower prior ratio than one
/// that is chosen. All errors are chosen where no choice is to be made.
pub proof fn law_choice(
    config: RejectionConfig,
    priors: Seq<i64>,
    errors: Seq<usize>,
    picked: Seq<usize>,
)
    requires
        config.chooses(priors, errors, picked),
        errors.len() <= usize::MAX,
        errors.no_duplicates(),
        config.wf(),
    ensures
        config.mode is Full ==> picked == errors,
        errors.len() > 0 && config.mode is Partial ==> picked.len() == config.share(errors.len()),
        forall|a: int| 0 <= a < picked.len() ==> errors.contains(#[trigger] picked[a]),
        picked.no_duplicates(),
        config.mode is Partial && config.selection is Prior ==> forall|a: int, v: usize|
            0 <= a < picked.len() && errors.contains(v) && !picked.contains(v) ==> priors[(
            #[trigger] picked[a]) as int] <= #[trigger] priors[v as int],
{
    if errors.len() > 0 && config.mode is Partial && config.selection is Prior {
        let keys = prior_keys(priors, errors);
        law_less_comes_first(keys);
        law_share(config, errors.len());
        let r = order(keys);
        let n = config.share(errors.len());
        assert forall|a: int| 0 <= a < n implies picked[a] == errors[r[a] as int] && r[a]
            < errors.len() by {}
        assert forall|a: int, b: int| 0 <= a < b < n implies picked[a] != picked[b] by {
            assert(r[a] != r[b]);
        }
        assert forall|a: int, v: usize|
            0 <= a < picked.len() && errors.contains(v) && !picked.contains(v) implies priors[(
            #[trigger] picked[a]) as int] <= #[trigger] priors[v as int] by {
            let i = choose|i: int| 0 <= i < errors.len() && errors[i] == v;
            lemma_reaches(r, errors.len(), i);
            let j = choose|j: int| 0 <= j < r.len() && r[j] == i as usize;
            if j < n {
                assert(picked[j] == v);
            }
            assert(j > a);
            let x = keys[r[a] as int];
            let y = keys[r[j] as int];
            assert(x.0 <= y.0);
        }
    }
}

/// A list of all places once reaches each of them.
pub proof fn lemma_reaches(q: Seq<usize>, n: nat, k: int)
    requires
        q.len() == n,
        q.no_duplicates(),
        forall|a: int| 0 <= a < n ==> (#[trigger] q[a]) < n,
        0 <= k < n,
        n <= usize::MAX,
    ensures
        exists|j: int| 0 <= j < q.len() && q[j] == k as usize,
{
    let image = q.to_set();
    let range = vstd::set_lib::set_int_range(0, n as int);
    q.unique_seq_to_set();
    vstd::set_lib::lemma_int_range(0, n as int);
    let lifted = image.map(|x: usize| x as int);
    assert(lifted.subset_of(range)) by {
        assert forall|y: int| lifted.contains(y) implies range.contains(y) by {
            let x = choose|x: usize| image.contains(x) && x as int == y;
            let j = choose|j: int| 0 <= j < q.len() && q[j] == x;
            assert(q[j] < n);
        }
    }
    vstd::set_lib::lemma_map_size(image, lifted, |x: usize| x as int);
    vstd::set_lib::lemma_subset_equality(lifted, range);
    assert(range.contains(k));
    assert(lifted.contains(k));
    let x = choose|x: usize| image.contains(x) && x as int == k;
    assert(q.contains(x));
}

/// `priors` are the priors of the code, but for those of the chosen errors, which are the
/// other ones.
pub open spec fn replaced(m: RejectionModel, picked: Seq<usize>, priors: Seq<i64>) -> bool {
    &&& priors.len() == m.matrix.cols
    &&& forall|v: int|
        0 <= v < priors.len() ==> #[trigger] priors[v] == (if picked.contains(v as usize) {
            m.reweighted[v]
        } else {
            m.min_sum.priors[v]
        })
}

/// A stage decodes the syndrome by a relay decoder that is new but for its priors. In the
/// first these are the priors of the code. In a later one those of the chosen errors are the
/// other ones, and all others are the priors of the code.
pub proof fn law_stages(m: RejectionModel, det: Seq<Bit>, picked: Seq<usize>)
    requires
        m.wf(),
    ensures
        ({
            let d = BpModel::built(m.matrix, m.min_sum);
            m.first(det).decoding == relayed(m.relay.run(m.draws, m.coins, det, d).legs).decoding
        }),
        exists|priors: Seq<i64>|
            {
                let d = BpModel::built(m.matrix, ConfigModel { priors, ..m.min_sum });
                &&& #[trigger] replaced(m, picked, priors)
                &&& m.again(det, picked) == relayed(m.relay.run(m.draws, m.coins, det, d).legs)
            },
{
    let priors = reweighed(m.min_sum.priors, m.reweighted, picked);
    let d = BpModel::built(m.matrix, ConfigModel { priors, ..m.min_sum });
    assert(replaced(m, picked, priors));
    assert(m.again(det, picked) == relayed(m.relay.run(m.draws, m.coins, det, d).legs));
}

/// A new decoder has the priors of its parameters, in range, and nothing was sent or seen.
pub proof fn law_built(m: RejectionModel, config: ConfigModel)
    requires
        config.wf(m.matrix.cols),
    ensures
        ({
            let d = BpModel::built(m.matrix, config);
            &&& d.matrix == m.matrix
            &&& d.config == config
            &&& d.priors.len() == m.matrix.cols
            &&& forall|v: int|
                0 <= v < d.priors.len() ==> held(
                    #[trigger] d.priors[v] as int,
                    config.priors[v] as int,
                    config.limit(),
                )
            &&& d.alphas is None
            &&& d.iteration == 0
            &&& config.gamma0 is Some ==> d.posterior == d.priors
        }),
{
}

/// What is concluded from three stages. The decoding is rejected by the second stage if that
/// finds another class than the first, by the third if that finds another class than the
/// second, and accepted otherwise. The gap is by how much the estimate of the rejecting stage
/// weighs more than the first under the priors of the code.
pub proof fn law_judged(m: RejectionModel, det: Seq<Bit>, second: Seq<usize>, third: Seq<usize>)
    ensures
        ({
            let a = m.first(det);
            let b = m.again(det, second);
            let c = m.again(det, third);
            let e = m.judged(det, second, third);
            let class_a = m.observables.mul_mod2(a.decoding);
            let class_b = m.observables.mul_mod2(b.decoding);
            let class_c = m.observables.mul_mod2(c.decoding);
            let weight_a = decoding_quality(m.min_sum.priors, a.decoding);
            let weight_b = decoding_quality(m.min_sum.priors, b.decoding);
            let weight_c = decoding_quality(m.min_sum.priors, c.decoding);
            &&& b.success ==> e.r2_iter == StageIterations::Converged(b.iterations as usize)
            &&& !b.success ==> e.r2_iter is Unconverged
            &&& class_a != class_b ==> {
                &&& e.reject == 2
                &&& e.r3_iter is NotRun
                &&& e.r2_class == Some(false)
                &&& e.r3_class is None
                &&& -i128::MAX <= weight_b - weight_a <= i128::MAX ==> e.rejection_gap == Some(
                    (weight_b - weight_a) as i128,
                )
            }
            &&& class_a == class_b ==> {
                &&& e.r2_class == Some(true)
                &&& c.success ==> e.r3_iter == StageIterations::Converged(c.iterations as usize)
                &&& !c.success ==> e.r3_iter is Unconverged
                &&& e.r3_class == Some(class_b == class_c)
            }
            &&& class_a == class_b && class_b == class_c ==> e.reject == 0 && e.rejection_gap is None
            &&& class_a == class_b && class_b != class_c ==> {
                &&& e.reject == 3
                &&& -i128::MAX <= weight_c - weight_a <= i128::MAX ==> e.rejection_gap == Some(
                    (weight_c - weight_a) as i128,
                )
            }
        }),
{
}

} // verus!
