//! Which bits local bit flipping flips, and when it stops.

use vstd::prelude::*;

use crate::decoder::zero_bits;
use crate::lbf::{
    all_zero, better, bits, check_parities, flipped, flips, is_neighborhood, lbf_run, linked,
    linked_below, reaches, score_of, within, LbfDecoder,
};
use crate::matrix::{dot, Bit, MatrixModel};

verus! {

/// The parity of a check is zero exactly if the decoding explains it.
pub proof fn law_parity(m: MatrixModel, syndrome: Seq<Bit>, decoding: Seq<Bit>, c: int)
    requires
        bits(syndrome),
        syndrome.len() == m.rows,
        0 <= c < m.rows,
    ensures
        check_parities(m, syndrome, decoding)[c] == 0 <==> m.mul_mod2(decoding)[c] == syndrome[c],
        check_parities(m, syndrome, decoding)[c] == 1 <==> m.mul_mod2(decoding)[c] != syndrome[c],
{
    let x = dot(m.row(c), decoding);
    assert(syndrome[c] == 0 || syndrome[c] == 1);
}

/// The checks of a variable vote: one that is not explained for flipping it, any other against.
pub proof fn law_votes(checks: Seq<usize>, parities: Seq<Bit>, c: usize)
    ensures
        score_of(Seq::empty(), parities) == 0,
        parities[c as int] == 1 ==> score_of(checks.push(c), parities) == score_of(checks, parities)
            + 1,
        parities[c as int] != 1 ==> score_of(checks.push(c), parities) == score_of(checks, parities)
            - 1,
{
    assert(checks.push(c).drop_last() =~= checks);
}

/// A bit flips exactly if the votes are not against it and it is ahead of all variables that
/// it competes with: by more votes, by fewer checks where the votes are equal, and by being
/// the first where both are.
pub proof fn law_flip(
    m: MatrixModel,
    parities: Seq<Bit>,
    near: Seq<Vec<usize>>,
    decoding: Seq<Bit>,
    v: int,
)
    requires
        0 <= v < m.cols,
        decoding[v] <= 1,
        !near[v]@.contains(v as usize),
        m.cols <= usize::MAX,
    ensures
        ({
            let ahead = forall|i: int|
                0 <= i < near[v].len() ==> {
                    let u = #[trigger] near[v]@[i] as int;
                    let votes = score_of(m.col(v), parities);
                    let others = score_of(m.col(u), parities);
                    ||| votes > others
                    ||| votes == others && m.col(v).len() < m.col(u).len()
                    ||| votes == others && m.col(v).len() == m.col(u).len() && v < u
                };
            let next = flipped(m, parities, near, decoding)[v];
            &&& ahead && score_of(m.col(v), parities) >= 0 ==> next == 1 - decoding[v]
            &&& !ahead || score_of(m.col(v), parities) < 0 ==> next == decoding[v]
        }),
{
    let list = near[v]@;
    let ahead = forall|i: int|
        0 <= i < near[v].len() ==> {
            let u = #[trigger] near[v]@[i] as int;
            let votes = score_of(m.col(v), parities);
            let others = score_of(m.col(u), parities);
            ||| votes > others
            ||| votes == others && m.col(v).len() < m.col(u).len()
            ||| votes == others && m.col(v).len() == m.col(u).len() && v < u
        };
    let best = forall|i: int|
        0 <= i < list.len() ==> !better(m, parities, #[trigger] list[i] as int, v);
    assert forall|i: int| 0 <= i < list.len() implies #[trigger] list[i] != v by {
        if list[i] == v {
            assert(list[i] == v as usize);
            assert(list.contains(v as usize));
        }
    }
    if ahead {
        assert forall|i: int| 0 <= i < list.len() implies !better(
            m,
            parities,
            #[trigger] list[i] as int,
            v,
        ) by {
            assert(near[v]@[i] == list[i]);
        }
    }
    if best {
        assert forall|i: int| 0 <= i < near[v].len() implies ({
            let u = #[trigger] near[v]@[i] as int;
            let votes = score_of(m.col(v), parities);
            let others = score_of(m.col(u), parities);
            ||| votes > others
            ||| votes == others && m.col(v).len() < m.col(u).len()
            ||| votes == others && m.col(v).len() == m.col(u).len() && v < u
        }) by {
            assert(!better(m, parities, list[i] as int, v));
        }
    }
}

/// `path` holds the decodings of successive rounds, none of which before the last explains
/// the syndrome or has nothing to flip.
pub open spec fn rounds(
    m: MatrixModel,
    near: Seq<Vec<usize>>,
    syndrome: Seq<Bit>,
    path: Seq<Seq<Bit>>,
) -> bool {
    &&& path.len() > 0
    &&& forall|k: int|
        0 <= k < path.len() - 1 ==> {
            let parities = check_parities(m, syndrome, #[trigger] path[k]);
            &&& !all_zero(parities)
            &&& exists|v: int| 0 <= v < m.cols && flips(m, parities, (#[trigger] near[v])@, v)
            &&& path[k + 1] == flipped(m, parities, near, path[k])
        }
}

proof fn lemma_rounds(
    m: MatrixModel,
    near: Seq<Vec<usize>>,
    syndrome: Seq<Bit>,
    decoding: Seq<Bit>,
    n: nat,
) -> (path: Seq<Seq<Bit>>)
    ensures
        ({
            let out = lbf_run(m, near, syndrome, decoding, n);
            &&& rounds(m, near, syndrome, path)
            &&& path[0] == decoding
            &&& path[path.len() - 1] == out.decoding
            &&& path.len() == out.rounds + 1
            &&& out.rounds <= n
            &&& out.success == all_zero(check_parities(m, syndrome, out.decoding))
            &&& !out.success && out.rounds < n ==> forall|v: int|
                0 <= v < m.cols ==> !flips(
                    m,
                    check_parities(m, syndrome, out.decoding),
                    (#[trigger] near[v])@,
                    v,
                )
        }),
    decreases n,
{
    let parities = check_parities(m, syndrome, decoding);
    let quiet = forall|v: int| 0 <= v < m.cols ==> !flips(m, parities, (#[trigger] near[v])@, v);
    if all_zero(parities) || n == 0 || quiet {
        seq![decoding]
    } else {
        let next = flipped(m, parities, near, decoding);
        let rest = lemma_rounds(m, near, syndrome, next, (n - 1) as nat);
        let path = seq![decoding] + rest;
        assert forall|k: int| 0 <= k < path.len() - 1 implies ({
            let parities = check_parities(m, syndrome, #[trigger] path[k]);
            &&& !all_zero(parities)
            &&& exists|v: int| 0 <= v < m.cols && flips(m, parities, (#[trigger] near[v])@, v)
            &&& path[k + 1] == flipped(m, parities, near, path[k])
        }) by {
            if k > 0 {
                assert(path[k] == rest[k - 1]);
                assert(path[k + 1] == rest[k]);
            }
        }
        path
    }
}

/// Flipping starts without errors and goes on round by round until every check is explained,
/// nothing is to be flipped, or all rounds are done. It succeeds exactly if every check is
/// explained.
pub proof fn law_flipping(d: LbfDecoder, det: Seq<Bit>)
    ensures
        ({
            let out = d.flipping(det);
            let m = d.check_matrix@;
            let near = d.variable_neighborhoods@;
            let last = check_parities(m, det, out.decoding);
            exists|path: Seq<Seq<Bit>>|
                {
                    &&& #[trigger] rounds(m, near, det, path)
                    &&& path[0] == zero_bits(m.cols)
                    &&& path[path.len() - 1] == out.decoding
                    &&& path.len() == out.rounds + 1
                    &&& out.rounds <= d.config.max_iter
                    &&& out.success == all_zero(last)
                    &&& !out.success && out.rounds < d.config.max_iter ==> forall|v: int|
                        0 <= v < m.cols ==> !flips(m, last, (#[trigger] near[v])@, v)
                }
        }),
{
    let path = lemma_rounds(
        d.check_matrix@,
        d.variable_neighborhoods@,
        det,
        zero_bits(d.check_matrix@.cols),
        d.config.max_iter as nat,
    );
}

/// Within two steps a variable competes with exactly those that share a check with it.
pub proof fn law_two_steps(
    variables: Seq<Vec<usize>>,
    checks: Seq<Vec<usize>>,
    v: int,
    u: int,
    near: Seq<usize>,
)
    requires
        is_neighborhood(variables, checks, v, 2, near),
        0 <= v < variables.len() <= usize::MAX,
        0 <= u < variables.len(),
    ensures
        near.contains(u as usize) <==> u != v && exists|i: int, j: int|
            #![trigger checks[variables[v][i] as int][j]]
            0 <= i < variables[v].len() && 0 <= j < checks[variables[v][i] as int].len()
                && checks[variables[v][i] as int][j] == u,
{
    reveal_with_fuel(within, 3);
    let start = within(variables, checks, v, 0);
    let one = within(variables, checks, v, 1);
    assert(2nat / 2 == 1);
    assert(near.contains(u as usize) <==> u != v && reaches(variables, checks, v, u, 1));
    assert(one[u] == (start[u] || linked_below(
        variables,
        checks,
        start,
        variables.len() as int,
        u,
    )));
    if linked_below(variables, checks, start, variables.len() as int, u) {
        let w = choose|w: int|
            0 <= w < variables.len() && start[w] && #[trigger] linked(variables, checks, w, u);
        assert(w == v);
    }
    if linked(variables, checks, v, u) {
        assert(start[v]);
    }
}

/// Two steps more reach exactly what shares a check with what was reached before.
pub proof fn law_more_steps(
    variables: Seq<Vec<usize>>,
    checks: Seq<Vec<usize>>,
    v: int,
    u: int,
    hops: nat,
)
    requires
        0 <= v < variables.len(),
        0 <= u < variables.len(),
    ensures
        reaches(variables, checks, v, u, 0) <==> u == v,
        reaches(variables, checks, v, u, hops + 1) <==> reaches(variables, checks, v, u, hops)
            || exists|w: int|
            {
                &&& 0 <= w < variables.len()
                &&& #[trigger] reaches(variables, checks, v, w, hops)
                &&& linked(variables, checks, w, u)
            },
{
    let near = within(variables, checks, v, hops);
    if linked_below(variables, checks, near, variables.len() as int, u) {
        let w = choose|w: int|
            0 <= w < variables.len() && near[w] && #[trigger] linked(variables, checks, w, u);
        assert(reaches(variables, checks, v, w, hops));
    }
    if exists|w: int|
        {
            &&& 0 <= w < variables.len()
            &&& #[trigger] reaches(variables, checks, v, w, hops)
            &&& linked(variables, checks, w, u)
        } {
        let w = choose|w: int|
            {
                &&& 0 <= w < variables.len()
                &&& #[trigger] reaches(variables, checks, v, w, hops)
                &&& linked(variables, checks, w, u)
            };
        assert(near[w] && linked(variables, checks, w, u));
    }
}

} // verus!
