//! How the clusters of localized statistics start, grow and merge.

use vstd::prelude::*;

use crate::arith::abs;
use crate::lsd::{
    best_candidate, candidate, due, grow_step, grown, grows, is_cluster, llr_below, reports,
    seeded, seeds_below, size_below, weakest_of, LsdModel, LsdResult,
};
use crate::matrix::{Bit, MatrixModel};

verus! {

proof fn lemma_seeds(syndrome: Seq<Bit>, a: int, b: int)
    requires
        0 <= a <= b,
    ensures
        seeds_below(syndrome, a) <= seeds_below(syndrome, b) <= seeds_below(syndrome, a) + b - a,
        a < b && syndrome[a] == 1 ==> seeds_below(syndrome, a) < seeds_below(syndrome, b),
    decreases b - a,
{
    if a < b {
        lemma_seeds(syndrome, a, b - 1);
    }
}

/// A search starts with one cluster for each check that fired, which holds that check alone.
/// Every cluster is still to be solved, and nothing is corrected.
pub proof fn law_seeds(m: MatrixModel, syndrome: Seq<Bit>, c: int, e: int)
    requires
        m.wf(),
        syndrome.len() == m.rows,
        0 <= c < e < m.rows,
    ensures
        ({
            let s = seeded(m, syndrome);
            &&& s.check_owner[c] is Some <==> syndrome[c] == 1
            &&& syndrome[c] == 1 && syndrome[e] == 1 ==> s.check_owner[c] != s.check_owner[e]
            &&& s.check_owner[c] matches Some(k) ==> k < s.owner.len() && due(s, k as int)
            &&& forall|x: int| 0 <= x < m.cols ==> #[trigger] s.bit_owner[x] is None
            &&& forall|x: int| 0 <= x < m.cols ==> #[trigger] s.correction[x] == 0
        }),
{
    let s = seeded(m, syndrome);
    let n = m.rows as int;
    lemma_seeds(syndrome, 0, c);
    lemma_seeds(syndrome, c, e);
    lemma_seeds(syndrome, e, n);
    lemma_seeds(syndrome, c, n);
    lemma_seeds(syndrome, 0, n);
}

/// Bit `x` is outside cluster `o` and in one of its checks.
pub open spec fn at_rim(m: MatrixModel, s: LsdModel, o: int, x: int) -> bool {
    &&& 0 <= x < m.cols
    &&& s.bit_owner[x] != Some(o as usize)
    &&& exists|c: int|
        0 <= c < m.rows && s.check_owner[c] == Some(o as usize) && #[trigger] m.entry(c, x)
}

/// Cluster `k` holds bit `x` or a check of it.
pub open spec fn touches(m: MatrixModel, s: LsdModel, k: usize, x: int) -> bool {
    ||| s.bit_owner[x] == Some(k)
    ||| exists|c: int| 0 <= c < m.rows && s.check_owner[c] == Some(k) && #[trigger] m.entry(c, x)
}

/// Cluster `o` has taken bit `x`: it holds that bit and all its checks, and all that the
/// clusters held that touch the bit. What other clusters hold stays theirs.
pub open spec fn takes_bit(m: MatrixModel, s: LsdModel, t: LsdModel, o: int, x: int) -> bool {
    &&& t.bit_owner.len() == m.cols
    &&& t.check_owner.len() == m.rows
    &&& t.bit_owner[x] == Some(o as usize)
    &&& forall|c: int|
        0 <= c < m.rows && #[trigger] m.entry(c, x) ==> t.check_owner[c] == Some(o as usize)
    &&& forall|y: int|
        #![trigger t.bit_owner[y]]
        0 <= y < m.cols && y != x ==> match s.bit_owner[y] {
            Some(k) => t.bit_owner[y] == Some(
                if touches(m, s, k, x) {
                    o as usize
                } else {
                    k
                },
            ),
            None => t.bit_owner[y] is None,
        }
    &&& forall|c: int|
        #![trigger t.check_owner[c]]
        0 <= c < m.rows && !m.entry(c, x) ==> match s.check_owner[c] {
            Some(k) => t.check_owner[c] == Some(
                if touches(m, s, k, x) {
                    o as usize
                } else {
                    k
                },
            ),
            None => t.check_owner[c] is None,
        }
    &&& forall|y: int|
        0 <= y < m.cols ==> #[trigger] t.correction[y] == (if t.bit_owner[y] == Some(o as usize) {
            0 as Bit
        } else {
            s.correction[y]
        })
}

/// A cluster that is to be solved takes one bit at its rim: the one of least magnitude of the
/// posterior, the first of them. Without such a bit it rests. Any other cluster stays as it is.
pub proof fn law_growth(m: MatrixModel, s: LsdModel, posterior: Seq<i64>, o: int)
    requires
        0 <= o <= usize::MAX,
    ensures
        ({
            let t = grow_step(m, s, posterior, o);
            &&& !due(s, o) ==> t == s
            &&& due(s, o) && !grows(m, s, posterior, o) ==> t == (LsdModel {
                active: s.active.update(o, false),
                ..s
            })
            &&& grows(m, s, posterior, o) ==> exists|x: int|
                {
                    &&& #[trigger] takes_bit(m, s, t, o, x)
                    &&& at_rim(m, s, o, x)
                    &&& forall|y: int| #[trigger]
                        at_rim(m, s, o, y) ==> {
                            let a = abs(posterior[x] as int);
                            let b = abs(posterior[y] as int);
                            a < b || (a == b && x <= y)
                        }
                }
        }),
        grows(m, s, posterior, o) ==> due(s, o),
{
    if grows(m, s, posterior, o) {
        let x = choose|x: int| best_candidate(m, s, posterior, o, x);
        let t = grow_step(m, s, posterior, o);
        assert(t == grown(m, s, o, x));
        assert forall|y: int| #[trigger] at_rim(m, s, o, y) implies ({
            let a = abs(posterior[x] as int);
            let b = abs(posterior[y] as int);
            a < b || (a == b && x <= y)
        }) by {
            assert(candidate(m, s, o, y));
            assert(weakest_of(posterior, x, y));
        }
        assert(takes_bit(m, s, t, o, x));
    }
}

/// The bits of a cluster.
pub open spec fn bits_of(bit_owner: Seq<Option<usize>>, o: int, n: int) -> Set<int> {
    Set::new(|x: int| 0 <= x < n && bit_owner[x] == Some(o as usize))
}

proof fn lemma_size(bit_owner: Seq<Option<usize>>, o: int, n: int)
    requires
        n >= 0,
    ensures
        bits_of(bit_owner, o, n).finite(),
        size_below(bit_owner, o, n) == bits_of(bit_owner, o, n).len(),
    decreases n,
{
    let s = bits_of(bit_owner, o, n);
    if n == 0 {
        assert(s =~= Set::empty());
    } else {
        lemma_size(bit_owner, o, n - 1);
        let t = bits_of(bit_owner, o, n - 1);
        assert(!t.contains(n - 1));
        if bit_owner[n - 1] == Some(o as usize) {
            assert(s =~= t.insert(n - 1));
        } else {
            assert(s =~= t);
        }
    }
}

/// What is reported of the clusters: a bit outside all of them has the number zero, any other
/// that of its cluster, whose entries are its number of bits and the sum of the magnitudes of
/// their priors.
pub proof fn law_reported(m: MatrixModel, prior: Seq<i64>, s: LsdModel, r: LsdResult, x: int)
    requires
        s.wf(m),
        reports(m, prior, s, r),
        0 <= x < m.cols,
    ensures
        s.bit_owner[x] is None ==> r.cluster_ids[x] == 0,
        s.bit_owner[x] matches Some(o) ==> {
            let i = r.cluster_ids[x] - 1;
            &&& r.cluster_ids[x] > 0
            &&& r.cluster_sizes[i] == bits_of(s.bit_owner, o as int, m.cols as int).len()
            &&& r.cluster_llrs[i] == llr_below(prior, s.bit_owner, o as int, m.cols as int)
        },
        r.lsd_correction matches Some(v) && v@ == s.correction,
{
    if let Some(o) = s.bit_owner[x] {
        let n = m.cols as int;
        lemma_size(s.bit_owner, o as int, n);
        let set = bits_of(s.bit_owner, o as int, n);
        assert(set.contains(x));
        assert(set.len() > 0) by {
            if set.len() == 0 {
                assert(set =~= Set::empty());
            }
        }
        assert(is_cluster(s, o as int));
    }
}

/// The magnitudes of the priors of a cluster, bit by bit.
pub proof fn law_cluster_weight(prior: Seq<i64>, bit_owner: Seq<Option<usize>>, o: int, n: int)
    requires
        n >= 0,
    ensures
        llr_below(prior, bit_owner, o, 0) == 0,
        bit_owner[n] == Some(o as usize) ==> llr_below(prior, bit_owner, o, n + 1) == llr_below(
            prior,
            bit_owner,
            o,
            n,
        ) + abs(prior[n] as int),
        bit_owner[n] != Some(o as usize) ==> llr_below(prior, bit_owner, o, n + 1) == llr_below(
            prior,
            bit_owner,
            o,
            n,
        ),
{
}

} // verus!
