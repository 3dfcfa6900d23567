//! Local bit flipping: every variable that its checks want flipped, and that no variable
//! nearby is a better choice than, is flipped at once.

use vstd::prelude::*;

use crate::decoder::{are_bits, zero_bits, BPExtraResult, DecodeResult, Decoder, ResultModel};
use crate::matrix::{
    dot, lemma_col_sorted, lemma_entry_col, lemma_row_sorted, Bit, MatrixModel, SparseBitMatrix,
};

verus! {

/// The parameters of local bit flipping.
#[derive(Clone, Debug)]
pub struct LbfDecoderConfig {
    /// The number of rounds after which flipping stops.
    pub max_iter: usize,
    /// Accepted for old callers; it has no effect.
    pub weight: usize,
    /// The distance, in steps between variables and checks, within which variables compete.
    pub k_step: usize,
}

impl Default for LbfDecoderConfig {
    fn default() -> (r: Self)
        ensures
            r.max_iter == 200,
            r.weight == 1000,
            r.k_step == 2,
    {
        LbfDecoderConfig { max_iter: 200, weight: 1000, k_step: 2 }
    }
}

/// The adjacency lists hold valid indices.
pub open spec fn lists_valid(variables: Seq<Vec<usize>>, checks: Seq<Vec<usize>>) -> bool {
    &&& forall|v: int, i: int|
        0 <= v < variables.len() && 0 <= i < variables[v].len() ==> #[trigger] variables[v][i]
            < checks.len()
    &&& forall|c: int, i: int|
        0 <= c < checks.len() && 0 <= i < checks[c].len() ==> #[trigger] checks[c][i]
            < variables.len()
}

/// The lists hold the same edges: a check is listed with a variable exactly if the variable is
/// listed with the check.
pub open spec fn transposed(variables: Seq<Vec<usize>>, checks: Seq<Vec<usize>>) -> bool {
    forall|v: int, c: int|
        #![trigger variables[v]@.contains(c as usize)]
        0 <= v < variables.len() && 0 <= c < checks.len() ==> (variables[v]@.contains(c as usize)
            <==> checks[c]@.contains(v as usize))
}

/// Variables `w` and `u` share a check.
pub open spec fn linked(variables: Seq<Vec<usize>>, checks: Seq<Vec<usize>>, w: int, u: int) -> bool {
    exists|i: int, j: int|
        #![trigger checks[variables[w][i] as int][j]]
        0 <= i < variables[w].len() && 0 <= j < checks[variables[w][i] as int].len()
            && checks[variables[w][i] as int][j] == u
}

/// Whether `u` shares a check with one of the marked variables below `n`.
pub open spec fn linked_below(
    variables: Seq<Vec<usize>>,
    checks: Seq<Vec<usize>>,
    marked: Seq<bool>,
    n: int,
    u: int,
) -> bool {
    exists|w: int| 0 <= w < n && marked[w] && #[trigger] linked(variables, checks, w, u)
}

/// The variables that are at most `hops` shared checks away from `v`.
pub open spec fn within(
    variables: Seq<Vec<usize>>,
    checks: Seq<Vec<usize>>,
    v: int,
    hops: nat,
) -> Seq<bool>
    decreases hops,
{
    if hops == 0 {
        Seq::new(variables.len(), |u: int| u == v)
    } else {
        let near = within(variables, checks, v, (hops - 1) as nat);
        Seq::new(
            variables.len(),
            |u: int|
                near[u] || linked_below(variables, checks, near, variables.len() as int, u),
        )
    }
}

/// Variable `u` is at most `hops` shared checks away from `v`.
pub open spec fn reaches(
    variables: Seq<Vec<usize>>,
    checks: Seq<Vec<usize>>,
    v: int,
    u: int,
    hops: nat,
) -> bool {
    within(variables, checks, v, hops)[u]
}

/// `list` holds, in increasing order, the variables other than `v` within `k_step` steps.
pub open spec fn is_neighborhood(
    variables: Seq<Vec<usize>>,
    checks: Seq<Vec<usize>>,
    v: int,
    k_step: nat,
    list: Seq<usize>,
) -> bool {
    &&& forall|a: int, b: int| 0 <= a < b < list.len() ==> list[a] < list[b]
    &&& forall|u: int|
        0 <= u < variables.len() ==> (#[trigger] list.contains(u as usize) <==> u != v && reaches(
            variables,
            checks,
            v,
            u,
            k_step / 2,
        ))
    &&& forall|a: int| 0 <= a < list.len() ==> list[a] < variables.len()
}

/// Marks what shares a check with a marked variable.
fn spread(
    variables: &Vec<Vec<usize>>,
    checks: &Vec<Vec<usize>>,
    marked: &Vec<bool>,
) -> (r: Vec<bool>)
    requires
        lists_valid(variables@, checks@),
        marked.len() == variables.len(),
    ensures
        r.len() == marked.len(),
        forall|u: int|
            0 <= u < r.len() ==> #[trigger] r@[u] == (marked[u] || linked_below(
                variables@,
                checks@,
                marked@,
                marked.len() as int,
                u,
            )),
{
    let mut r: Vec<bool> = marked.clone();
    assert(r@ == marked@);
    let mut w: usize = 0;
    while w < variables.len()
        invariant
            lists_valid(variables@, checks@),
            marked.len() == variables.len(),
            w <= variables.len(),
            r.len() == marked.len(),
            forall|u: int|
                0 <= u < r.len() ==> #[trigger] r@[u] == (marked[u] || linked_below(
                    variables@,
                    checks@,
                    marked@,
                    w as int,
                    u,
                )),
        decreases variables.len() - w,
    {
        let ghost before = r@;
        if marked[w] {
            mark_linked(variables, checks, w, &mut r);
        }
        proof {
            assert forall|u: int|
                0 <= u < r.len() implies #[trigger] r@[u] == (marked[u] || linked_below(
                variables@,
                checks@,
                marked@,
                w + 1,
                u,
            )) by {
                assert(before[u] == (marked[u] || linked_below(
                    variables@,
                    checks@,
                    marked@,
                    w as int,
                    u,
                )));
                if linked_below(variables@, checks@, marked@, w as int, u) {
                    let x = choose|x: int|
                        0 <= x < w && marked[x] && #[trigger] linked(variables@, checks@, x, u);
                    assert(linked(variables@, checks@, x, u));
                }
                if linked_below(variables@, checks@, marked@, w + 1, u) {
                    let x = choose|x: int|
                        0 <= x < w + 1 && marked[x] && #[trigger] linked(variables@, checks@, x, u);
                    assert(linked(variables@, checks@, x, u));
                }
                if marked[w as int] && linked(variables@, checks@, w as int, u) {
                    assert(linked_below(variables@, checks@, marked@, w + 1, u));
                }
            }
        }
        w += 1;
    }
    r
}

/// Whether `u` is in one of the first `n` checks of `w`, or among the first `q` variables of
/// the next.
spec fn linked_within(
    variables: Seq<Vec<usize>>,
    checks: Seq<Vec<usize>>,
    w: int,
    n: int,
    q: int,
    u: int,
) -> bool {
    exists|i: int, j: int|
        #![trigger checks[variables[w][i] as int][j]]
        {
            &&& 0 <= i <= n
            &&& i < variables[w].len()
            &&& 0 <= j < checks[variables[w][i] as int].len()
            &&& i == n ==> j < q
            &&& checks[variables[w][i] as int][j] == u
        }
}

/// Marks what shares a check with `w`.
fn mark_linked(
    variables: &Vec<Vec<usize>>,
    checks: &Vec<Vec<usize>>,
    w: usize,
    r: &mut Vec<bool>,
)
    requires
        lists_valid(variables@, checks@),
        w < variables.len(),
        old(r).len() == variables.len(),
    ensures
        final(r).len() == old(r).len(),
        forall|u: int|
            0 <= u < final(r).len() ==> #[trigger] final(r)@[u] == (old(r)@[u] || linked(
                variables@,
                checks@,
                w as int,
                u,
            )),
{
    let ghost before = r@;
    let mut i: usize = 0;
    while i < variables[w].len()
        invariant
            lists_valid(variables@, checks@),
            w < variables.len(),
            r.len() == variables.len(),
            before.len() == r.len(),
            i <= variables[w as int].len(),
            forall|u: int|
                0 <= u < r.len() ==> #[trigger] r@[u] == (before[u] || linked_within(
                    variables@,
                    checks@,
                    w as int,
                    i as int,
                    0,
                    u,
                )),
        decreases variables[w as int].len() - i,
    {
        let c: usize = variables[w][i];
        let mut j: usize = 0;
        while j < checks[c].len()
            invariant
                lists_valid(variables@, checks@),
                w < variables.len(),
                r.len() == variables.len(),
                before.len() == r.len(),
                i < variables[w as int].len(),
                c == variables[w as int][i as int],
                c < checks.len(),
                j <= checks[c as int].len(),
                forall|u: int|
                    0 <= u < r.len() ==> #[trigger] r@[u] == (before[u] || linked_within(
                        variables@,
                        checks@,
                        w as int,
                        i as int,
                        j as int,
                        u,
                    )),
            decreases checks[c as int].len() - j,
        {
            let ghost prev = r@;
            let x: usize = checks[c][j];
            r.set(x, true);
            proof {
                assert forall|u: int| 0 <= u < r.len() implies #[trigger] r@[u] == (before[u]
                    || linked_within(variables@, checks@, w as int, i as int, j + 1, u)) by {
                    lemma_linked_step(variables@, checks@, w as int, i as int, j as int, u);
                    assert(prev[u] == (before[u] || linked_within(
                        variables@,
                        checks@,
                        w as int,
                        i as int,
                        j as int,
                        u,
                    )));
                }
            }
            j += 1;
        }
        proof {
            assert forall|u: int| 0 <= u < r.len() implies #[trigger] r@[u] == (before[u]
                || linked_within(variables@, checks@, w as int, i + 1, 0, u)) by {
                lemma_linked_next(variables@, checks@, w as int, i as int, u);
            }
        }
        i += 1;
    }
    proof {
        assert forall|u: int| 0 <= u < r.len() implies #[trigger] r@[u] == (before[u] || linked(
            variables@,
            checks@,
            w as int,
            u,
        )) by {
            let n = variables[w as int].len() as int;
            if linked_within(variables@, checks@, w as int, n, 0, u) {
                let (i, j) = choose|i: int, j: int|
                    #![trigger checks@[variables@[w as int][i] as int][j]]
                    {
                        &&& 0 <= i <= n
                        &&& i < variables@[w as int].len()
                        &&& 0 <= j < checks@[variables@[w as int][i] as int].len()
                        &&& i == n ==> j < 0
                        &&& checks@[variables@[w as int][i] as int][j] == u
                    };
                assert(checks@[variables@[w as int][i] as int][j] == u);
            }
            if linked(variables@, checks@, w as int, u) {
                let (i, j) = choose|i: int, j: int|
                    #![trigger checks@[variables@[w as int][i] as int][j]]
                    0 <= i < variables@[w as int].len() && 0 <= j
                        < checks@[variables@[w as int][i] as int].len()
                        && checks@[variables@[w as int][i] as int][j] == u;
                assert(checks@[variables@[w as int][i] as int][j] == u);
            }
        }
    }
}

proof fn lemma_linked_step(
    variables: Seq<Vec<usize>>,
    checks: Seq<Vec<usize>>,
    w: int,
    n: int,
    q: int,
    u: int,
)
    requires
        0 <= n < variables[w].len(),
        0 <= q < checks[variables[w][n] as int].len(),
    ensures
        linked_within(variables, checks, w, n, q + 1, u) <==> linked_within(
            variables,
            checks,
            w,
            n,
            q,
            u,
        ) || checks[variables[w][n] as int][q] == u,
{
    if linked_within(variables, checks, w, n, q + 1, u) {
        let (i, j) = choose|i: int, j: int|
            #![trigger checks[variables[w][i] as int][j]]
            {
                &&& 0 <= i <= n
                &&& i < variables[w].len()
                &&& 0 <= j < checks[variables[w][i] as int].len()
                &&& i == n ==> j < q + 1
                &&& checks[variables[w][i] as int][j] == u
            };
        assert(checks[variables[w][i] as int][j] == u);
    }
    if linked_within(variables, checks, w, n, q, u) {
        let (i, j) = choose|i: int, j: int|
            #![trigger checks[variables[w][i] as int][j]]
            {
                &&& 0 <= i <= n
                &&& i < variables[w].len()
                &&& 0 <= j < checks[variables[w][i] as int].len()
                &&& i == n ==> j < q
                &&& checks[variables[w][i] as int][j] == u
            };
        assert(checks[variables[w][i] as int][j] == u);
    }
    if checks[variables[w][n] as int][q] == u {
        assert(linked_within(variables, checks, w, n, q + 1, u));
    }
}

proof fn lemma_linked_next(
    variables: Seq<Vec<usize>>,
    checks: Seq<Vec<usize>>,
    w: int,
    n: int,
    u: int,
)
    requires
        0 <= n < variables[w].len(),
    ensures
        linked_within(variables, checks, w, n + 1, 0, u) <==> linked_within(
            variables,
            checks,
            w,
            n,
            checks[variables[w][n] as int].len() as int,
            u,
        ),
{
    let q = checks[variables[w][n] as int].len() as int;
    if linked_within(variables, checks, w, n + 1, 0, u) {
        let (i, j) = choose|i: int, j: int|
            #![trigger checks[variables[w][i] as int][j]]
            {
                &&& 0 <= i <= n + 1
                &&& i < variables[w].len()
                &&& 0 <= j < checks[variables[w][i] as int].len()
                &&& i == n + 1 ==> j < 0
                &&& checks[variables[w][i] as int][j] == u
            };
        assert(checks[variables[w][i] as int][j] == u);
    }
    if linked_within(variables, checks, w, n, q, u) {
        let (i, j) = choose|i: int, j: int|
            #![trigger checks[variables[w][i] as int][j]]
            {
                &&& 0 <= i <= n
                &&& i < variables[w].len()
                &&& 0 <= j < checks[variables[w][i] as int].len()
                &&& i == n ==> j < q
                &&& checks[variables[w][i] as int][j] == u
            };
        assert(checks[variables[w][i] as int][j] == u);
    }
}

/// The variables that compete with each variable: those within `k_step` steps on the graph.
pub fn compute_variable_neighborhoods(
    variable_to_checks: &Vec<Vec<usize>>,
    check_to_variables: &Vec<Vec<usize>>,
    k_step: usize,
) -> (r: Vec<Vec<usize>>)
    requires
        lists_valid(variable_to_checks@, check_to_variables@),
    ensures
        r.len() == variable_to_checks.len(),
        forall|v: int|
            0 <= v < r.len() ==> is_neighborhood(
                variable_to_checks@,
                check_to_variables@,
                v,
                k_step as nat,
                (#[trigger] r[v])@,
            ),
{
    let n: usize = variable_to_checks.len();
    let mut out: Vec<Vec<usize>> = Vec::new();
    let mut start: usize = 0;
    while start < n
        invariant
            lists_valid(variable_to_checks@, check_to_variables@),
            n == variable_to_checks.len(),
            start <= n,
            out.len() == start,
            forall|v: int|
                0 <= v < start ==> is_neighborhood(
                    variable_to_checks@,
                    check_to_variables@,
                    v,
                    k_step as nat,
                    (#[trigger] out[v])@,
                ),
        decreases n - start,
    {
        let mut marked: Vec<bool> = vec![false; n];
        marked.set(start, true);
        let hops: usize = k_step / 2;
        assert(marked@ =~= within(variable_to_checks@, check_to_variables@, start as int, 0));
        let mut h: usize = 0;
        while h < hops
            invariant
                lists_valid(variable_to_checks@, check_to_variables@),
                n == variable_to_checks.len(),
                start < n,
                h <= hops,
                marked@ == within(
                    variable_to_checks@,
                    check_to_variables@,
                    start as int,
                    h as nat,
                ),
                marked.len() == n,
            decreases hops - h,
        {
            let next: Vec<bool> = spread(variable_to_checks, check_to_variables, &marked);
            assert(next@ =~= within(
                variable_to_checks@,
                check_to_variables@,
                start as int,
                (h + 1) as nat,
            ));
            marked = next;
            h += 1;
        }
        let mut list: Vec<usize> = Vec::new();
        let mut u: usize = 0;
        while u < n
            invariant
                n == marked.len(),
                u <= n,
                start < n,
                forall|a: int, b: int| 0 <= a < b < list.len() ==> list[a] < list[b],
                forall|a: int| 0 <= a < list.len() ==> list[a] < u,
                forall|x: int|
                    0 <= x < u ==> (#[trigger] list@.contains(x as usize) <==> x != start && marked@[x]),
            decreases n - u,
        {
            let ghost before = list@;
            if u != start && marked[u] {
                list.push(u);
            }
            proof {
                assert forall|x: int|
                    0 <= x < u + 1 implies (#[trigger] list@.contains(x as usize) <==> x
                    != start && marked@[x]) by {
                    if x < u {
                        if before.contains(x as usize) {
                            let a = choose|a: int| 0 <= a < before.len() && before[a] == x as usize;
                            assert(list@[a] == x as usize);
                        }
                        if list@.contains(x as usize) {
                            let a = choose|a: int| 0 <= a < list@.len() && list@[a] == x as usize;
                            assert(before[a] == x as usize);
                        }
                    } else {
                        if u != start && marked@[u as int] {
                            assert(list@[before.len() as int] == x as usize);
                        } else if list@.contains(x as usize) {
                            let a = choose|a: int| 0 <= a < list@.len() && list@[a] == x as usize;
                            assert(list@[a] < u);
                        }
                    }
                }
            }
            u += 1;
        }
        out.push(list);
        start += 1;
    }
    out
}

/// The parity of each check: one where the decoding does not explain it.
pub open spec fn check_parities(m: MatrixModel, syndrome: Seq<Bit>, decoding: Seq<Bit>) -> Seq<Bit> {
    Seq::new(m.rows, |c: int| ((syndrome[c] + dot(m.row(c), decoding)) % 2) as Bit)
}

/// The unexplained checks in a list less the explained ones.
pub open spec fn score_of(checks: Seq<usize>, parities: Seq<Bit>) -> int
    decreases checks.len(),
{
    if checks.len() == 0 {
        0
    } else {
        score_of(checks.drop_last(), parities) + (if parities[checks.last() as int] == 1 {
            1int
        } else {
            -1int
        })
    }
}

/// The score of variable `v`.
pub open spec fn score(m: MatrixModel, parities: Seq<Bit>, v: int) -> int {
    score_of(m.col(v), parities)
}

/// Variable `a` is a better choice than `b`: a higher score, then fewer checks, then first.
pub open spec fn better(m: MatrixModel, parities: Seq<Bit>, a: int, b: int) -> bool {
    let sa = score(m, parities, a);
    let sb = score(m, parities, b);
    if sa != sb {
        sa > sb
    } else if m.col(a).len() != m.col(b).len() {
        m.col(a).len() < m.col(b).len()
    } else {
        a < b
    }
}

/// Variable `v` is flipped: its checks do not vote against it and no variable in `near` is a
/// better choice.
pub open spec fn flips(m: MatrixModel, parities: Seq<Bit>, near: Seq<usize>, v: int) -> bool {
    &&& score(m, parities, v) >= 0
    &&& forall|i: int| 0 <= i < near.len() ==> !better(m, parities, #[trigger] near[i] as int, v)
}

/// The decoding after one round.
pub open spec fn flipped(
    m: MatrixModel,
    parities: Seq<Bit>,
    near: Seq<Vec<usize>>,
    decoding: Seq<Bit>,
) -> Seq<Bit> {
    Seq::new(
        m.cols,
        |v: int|
            if flips(m, parities, near[v]@, v) {
                (1 - decoding[v]) as Bit
            } else {
                decoding[v]
            },
    )
}

/// Every check is explained.
pub open spec fn all_zero(parities: Seq<Bit>) -> bool {
    forall|c: int| 0 <= c < parities.len() ==> #[trigger] parities[c] == 0
}

/// The end of flipping.
pub struct LbfOutcome {
    pub decoding: Seq<Bit>,
    pub rounds: nat,
    pub success: bool,
}

/// Flipping until every check is explained or nothing is to be flipped, `n` rounds at most.
pub open spec fn lbf_run(
    m: MatrixModel,
    near: Seq<Vec<usize>>,
    syndrome: Seq<Bit>,
    decoding: Seq<Bit>,
    n: nat,
) -> LbfOutcome
    decreases n,
{
    let parities = check_parities(m, syndrome, decoding);
    if all_zero(parities) {
        LbfOutcome { decoding, rounds: 0, success: true }
    } else if n == 0 || forall|v: int| 0 <= v < m.cols ==> !flips(m, parities, (#[trigger] near[v])@, v) {
        LbfOutcome { decoding, rounds: 0, success: false }
    } else {
        let rest = lbf_run(
            m,
            near,
            syndrome,
            flipped(m, parities, near, decoding),
            (n - 1) as nat,
        );
        LbfOutcome { rounds: rest.rounds + 1, ..rest }
    }
}

/// A local bit flipping decoder.
#[derive(Clone, Debug)]
pub struct LbfDecoder {
    pub check_matrix: SparseBitMatrix,
    pub config: LbfDecoderConfig,
    pub variable_to_checks: Vec<Vec<usize>>,
    pub check_to_variables: Vec<Vec<usize>>,
    pub variable_neighborhoods: Vec<Vec<usize>>,
    pub current_iteration: usize,
}

/// Every entry is zero or one.
pub open spec fn bits(s: Seq<Bit>) -> bool {
    forall|i: int| 0 <= i < s.len() ==> #[trigger] s[i] == 0 || s[i] == 1
}

proof fn lemma_score_bound(checks: Seq<usize>, parities: Seq<Bit>)
    ensures
        -checks.len() <= score_of(checks, parities) <= checks.len(),
    decreases checks.len(),
{
    if checks.len() > 0 {
        lemma_score_bound(checks.drop_last(), parities);
    }
}

/// No variable is flipped.
spec fn quiet(m: MatrixModel, parities: Seq<Bit>, near: Seq<Vec<usize>>) -> bool {
    forall|v: int| 0 <= v < m.cols ==> !flips(m, parities, (#[trigger] near[v])@, v)
}

proof fn lemma_lbf_step(
    m: MatrixModel,
    near: Seq<Vec<usize>>,
    syndrome: Seq<Bit>,
    decoding: Seq<Bit>,
    n: nat,
)
    requires
        n > 0,
    ensures
        ({
            let parities = check_parities(m, syndrome, decoding);
            let run = lbf_run(m, near, syndrome, decoding, n);
            let rest = lbf_run(
                m,
                near,
                syndrome,
                flipped(m, parities, near, decoding),
                (n - 1) as nat,
            );
            &&& all_zero(parities) ==> run == (LbfOutcome { decoding, rounds: 0, success: true })
            &&& !all_zero(parities) && quiet(m, parities, near) ==> run == (LbfOutcome {
                decoding,
                rounds: 0,
                success: false,
            })
            &&& !all_zero(parities) && !quiet(m, parities, near) ==> run == (LbfOutcome {
                rounds: rest.rounds + 1,
                ..rest
            })
        }),
{
}

impl LbfDecoder {
    /// The lists are those of the matrix, and the neighbourhoods those of the lists.
    pub open spec fn wf(self) -> bool {
        let m = self.check_matrix@;
        &&& m.wf()
        &&& self.config.k_step >= 2
        &&& self.config.k_step % 2 == 0
        &&& self.variable_to_checks.len() == m.cols
        &&& forall|v: int| 0 <= v < m.cols ==> (#[trigger] self.variable_to_checks[v])@ == m.col(v)
        &&& self.check_to_variables.len() == m.rows
        &&& forall|c: int| 0 <= c < m.rows ==> (#[trigger] self.check_to_variables[c])@ == m.row(c)
        &&& self.variable_neighborhoods.len() == m.cols
        &&& forall|v: int|
            0 <= v < m.cols ==> is_neighborhood(
                self.variable_to_checks@,
                self.check_to_variables@,
                v,
                self.config.k_step as nat,
                (#[trigger] self.variable_neighborhoods[v])@,
            )
    }

    /// A decoder for the code with check matrix `check_matrix`.
    pub fn new(check_matrix: SparseBitMatrix, config: LbfDecoderConfig) -> (r: Self)
        requires
            check_matrix@.wf(),
            config.k_step >= 2,
            config.k_step % 2 == 0,
        ensures
            r.wf(),
            r.check_matrix == check_matrix,
            r.config == config,
            r.current_iteration == 0,
    {
        let ghost m = check_matrix@;
        let mut variable_to_checks: Vec<Vec<usize>> = Vec::new();
        let mut v: usize = 0;
        while v < check_matrix.cols
            invariant
                m == check_matrix@,
                m.wf(),
                v <= m.cols,
                variable_to_checks.len() == v,
                forall|u: int| 0 <= u < v ==> (#[trigger] variable_to_checks[u])@ == m.col(u),
            decreases check_matrix.cols - v,
        {
            variable_to_checks.push(check_matrix.col_indices(v));
            v += 1;
        }
        let mut check_to_variables: Vec<Vec<usize>> = Vec::new();
        let mut c: usize = 0;
        while c < check_matrix.rows
            invariant
                m == check_matrix@,
                m.wf(),
                c <= m.rows,
                check_to_variables.len() == c,
                forall|u: int| 0 <= u < c ==> (#[trigger] check_to_variables[u])@ == m.row(u),
            decreases check_matrix.rows - c,
        {
            check_to_variables.push(check_matrix.row_indices(c));
            c += 1;
        }
        proof {
            assert forall|v: int, i: int|
                0 <= v < variable_to_checks@.len() && 0 <= i < variable_to_checks@[v].len() implies
                #[trigger] variable_to_checks@[v][i]
                < check_to_variables@.len() by {
                lemma_col_sorted(m, v);
                assert(variable_to_checks[v]@ == m.col(v));
            }
            assert forall|c: int, i: int|
                0 <= c < check_to_variables@.len() && 0 <= i < check_to_variables@[c].len() implies
                #[trigger] check_to_variables@[c][i]
                < variable_to_checks@.len() by {
                lemma_row_sorted(m, c);
                assert(check_to_variables[c]@ == m.row(c));
            }
        }
        let variable_neighborhoods: Vec<Vec<usize>> = compute_variable_neighborhoods(
            &variable_to_checks,
            &check_to_variables,
            config.k_step,
        );
        LbfDecoder {
            check_matrix,
            config,
            variable_to_checks,
            check_to_variables,
            variable_neighborhoods,
            current_iteration: 0,
        }
    }

    /// The parity of each check.
    fn compute_check_parities(&self, decoding: &Vec<Bit>, syndrome: &Vec<Bit>) -> (r: Vec<Bit>)
        requires
            self.wf(),
            decoding.len() == self.check_matrix@.cols,
            syndrome.len() == self.check_matrix@.rows,
        ensures
            r@ == check_parities(self.check_matrix@, syndrome@, decoding@),
    {
        let ghost m = self.check_matrix@;
        let explained: Vec<Bit> = self.check_matrix.mul_mod2(decoding);
        let mut r: Vec<Bit> = Vec::new();
        let mut c: usize = 0;
        while c < syndrome.len()
            invariant
                m == self.check_matrix@,
                syndrome.len() == m.rows,
                explained@ == m.mul_mod2(decoding@),
                c <= syndrome.len(),
                r.len() == c,
                forall|k: int|
                    0 <= k < c ==> #[trigger] r@[k] == check_parities(m, syndrome@, decoding@)[k],
            decreases syndrome.len() - c,
        {
            let a: Bit = syndrome[c] % 2;
            let b: Bit = explained[c];
            r.push(if a == b { 0 } else { 1 });
            c += 1;
        }
        assert(r@ =~= check_parities(m, syndrome@, decoding@));
        r
    }

    /// The score of variable `v`.
    fn variable_score(&self, v: usize, parities: &Vec<Bit>) -> (r: i64)
        requires
            self.wf(),
            v < self.check_matrix@.cols,
            parities.len() == self.check_matrix@.rows,
        ensures
            r == score(self.check_matrix@, parities@, v as int),
    {
        let ghost m = self.check_matrix@;
        assert(self.variable_to_checks[v as int]@ == m.col(v as int));
        proof {
            lemma_col_sorted(m, v as int);
            assert(m.col_ptr[v as int] <= m.col_ptr[v + 1] <= m.col_ptr[m.cols as int]);
        }
        let mut total: i64 = 0;
        let mut i: usize = 0;
        while i < self.variable_to_checks[v].len()
            invariant
                m == self.check_matrix@,
                self.wf(),
                v < m.cols,
                parities.len() == m.rows,
                self.variable_to_checks[v as int]@ == m.col(v as int),
                forall|a: int| 0 <= a < m.col(v as int).len() ==> m.col(v as int)[a] < m.rows,
                i <= m.col(v as int).len() <= usize::MAX / 2,
                total == score_of(m.col(v as int).take(i as int), parities@),
            decreases self.variable_to_checks[v as int].len() - i,
        {
            let c: usize = self.variable_to_checks[v][i];
            proof {
                let p = m.col(v as int).take(i as int + 1);
                assert(p.drop_last() =~= m.col(v as int).take(i as int));
                lemma_score_bound(m.col(v as int).take(i as int), parities@);
                lemma_score_bound(p, parities@);
            }
            if parities[c] == 1 {
                total = total + 1;
            } else {
                total = total - 1;
            }
            i += 1;
        }
        assert(m.col(v as int).take(i as int) =~= m.col(v as int));
        total
    }

    /// Whether `a` is a better choice than `b`.
    fn is_better_candidate(
        &self,
        a: usize,
        b: usize,
        scores: &Vec<i64>,
        Ghost(parities): Ghost<Seq<Bit>>,
    ) -> (r: bool)
        requires
            self.wf(),
            a < self.check_matrix@.cols,
            b < self.check_matrix@.cols,
            scores.len() == self.check_matrix@.cols,
            forall|v: int|
                0 <= v < scores.len() ==> #[trigger] scores[v] == score(self.check_matrix@, parities, v),
        ensures
            r == better(self.check_matrix@, parities, a as int, b as int),
    {
        let sa: i64 = scores[a];
        let sb: i64 = scores[b];
        assert(self.variable_to_checks[a as int]@ == self.check_matrix@.col(a as int));
        assert(self.variable_to_checks[b as int]@ == self.check_matrix@.col(b as int));
        let da: usize = self.variable_to_checks[a].len();
        let db: usize = self.variable_to_checks[b].len();
        if sa != sb {
            sa > sb
        } else if da != db {
            da < db
        } else {
            a < b
        }
    }

    /// Flips the variables of one round. Returns whether there was any.
    fn flip_round(&self, decoding: &mut Vec<Bit>, parities: &Vec<Bit>) -> (r: bool)
        requires
            self.wf(),
            old(decoding).len() == self.check_matrix@.cols,
            bits(old(decoding)@),
            parities.len() == self.check_matrix@.rows,
        ensures
            final(decoding)@ == flipped(
                self.check_matrix@,
                parities@,
                self.variable_neighborhoods@,
                old(decoding)@,
            ),
            bits(final(decoding)@),
            !r <==> quiet(self.check_matrix@, parities@, self.variable_neighborhoods@),
    {
        let ghost m = self.check_matrix@;
        let ghost near = self.variable_neighborhoods@;
        let ghost before = decoding@;
        let n: usize = self.check_matrix.cols;
        let mut scores: Vec<i64> = Vec::new();
        let mut v: usize = 0;
        while v < n
            invariant
                m == self.check_matrix@,
                self.wf(),
                n == m.cols,
                parities.len() == m.rows,
                v <= n,
                scores.len() == v,
                forall|u: int| 0 <= u < v ==> #[trigger] scores[u] == score(m, parities@, u),
            decreases n - v,
        {
            scores.push(self.variable_score(v, parities));
            v += 1;
        }
        let mut any: bool = false;
        let mut v: usize = 0;
        while v < n
            invariant
                m == self.check_matrix@,
                near == self.variable_neighborhoods@,
                self.wf(),
                n == m.cols,
                v <= n,
                scores.len() == n,
                forall|u: int| 0 <= u < n ==> #[trigger] scores[u] == score(m, parities@, u),
                before.len() == n,
                bits(before),
                decoding.len() == n,
                bits(decoding@),
                forall|u: int| v <= u < n ==> #[trigger] decoding@[u] == before[u],
                forall|u: int|
                    0 <= u < v ==> #[trigger] decoding@[u] == flipped(m, parities@, near, before)[u],
                !any <==> forall|u: int|
                    0 <= u < v ==> !flips(m, parities@, (#[trigger] near[u])@, u),
            decreases n - v,
        {
            let mut best: bool = scores[v] >= 0;
            assert(scores[v as int] == score(m, parities@, v as int));
            assert(is_neighborhood(
                self.variable_to_checks@,
                self.check_to_variables@,
                v as int,
                self.config.k_step as nat,
                self.variable_neighborhoods[v as int]@,
            ));
            let mut i: usize = 0;
            while i < self.variable_neighborhoods[v].len() && best
                invariant
                    m == self.check_matrix@,
                    near == self.variable_neighborhoods@,
                    self.wf(),
                    v < n == m.cols,
                    scores.len() == n,
                    forall|u: int| 0 <= u < n ==> #[trigger] scores[u] == score(m, parities@, u),
                    i <= near[v as int].len(),
                    forall|a: int| 0 <= a < near[v as int].len() ==> near[v as int][a] < n,
                    best ==> score(m, parities@, v as int) >= 0,
                    best ==> forall|a: int|
                        0 <= a < i ==> !better(m, parities@, #[trigger] near[v as int]@[a] as int, v as int),
                    !best ==> !flips(m, parities@, near[v as int]@, v as int),
                decreases near[v as int].len() - i,
            {
                let u: usize = self.variable_neighborhoods[v][i];
                let beaten: bool = self.is_better_candidate(u, v, &scores, Ghost(parities@));
                assert(near[v as int]@[i as int] == u);
                if beaten {
                    best = false;
                }
                i += 1;
            }
            assert(best == flips(m, parities@, near[v as int]@, v as int));
            assert(decoding@[v as int] == before[v as int]);
            if best {
                let bit: Bit = decoding[v];
                decoding.set(v, if bit == 0 { 1 } else { 0 });
                any = true;
                assert(!(forall|u: int| 0 <= u < v + 1 ==> !flips(m, parities@, (#[trigger] near[u])@, u)))
                    by {
                    assert(flips(m, parities@, near[v as int]@, v as int));
                }
            }
            v += 1;
        }
        assert(decoding@ =~= flipped(m, parities@, near, before));
        any
    }

    /// Decodes a syndrome by local bit flipping.
    #[verifier::rlimit(50)]
    #[verifier::spinoff_prover]
    pub fn decode_detailed(&mut self, detectors: &Vec<Bit>) -> (r: DecodeResult)
        requires
            old(self).wf(),
            detectors.len() == old(self).check_matrix@.rows,
        ensures
            final(self).wf(),
            r.decoding.len() == old(self).check_matrix@.cols,
            ({
                let m = old(self).check_matrix@;
                let n = old(self).config.max_iter as nat;
                let out = lbf_run(
                    m,
                    old(self).variable_neighborhoods@,
                    detectors@,
                    zero_bits(m.cols),
                    n,
                );
                &&& r@ == (ResultModel {
                    decoding: out.decoding,
                    decoded_detectors: m.mul_mod2(out.decoding),
                    posterior: Seq::new(m.cols, |v: int| 0i64),
                    success: out.success,
                    quality: 0,
                    iterations: out.rounds,
                    max_iter: n,
                    gap: None,
                })
                &&& r.extra == (BPExtraResult::LBFTrace {
                    converged: out.success || out.rounds < n,
                })
                &&& *final(self) == (LbfDecoder {
                    current_iteration: out.rounds as usize,
                    ..*old(self)
                })
            }),
    {
        let ghost m = self.check_matrix@;
        let ghost near = self.variable_neighborhoods@;
        let cols: usize = self.check_matrix.cols;
        let max_iter: usize = self.config.max_iter;
        let mut decoding: Vec<Bit> = vec![0; cols];
        assert(decoding@ =~= zero_bits(m.cols));
        let ghost out = lbf_run(m, near, detectors@, decoding@, max_iter as nat);
        let mut success: bool = false;
        let mut done: bool = false;
        let mut i: usize = 0;
        while i < max_iter && !done
            invariant
                self.wf(),
                m == self.check_matrix@,
                near == self.variable_neighborhoods@,
                cols == m.cols,
                detectors.len() == m.rows,
                decoding.len() == cols,
                bits(decoding@),
                i <= max_iter,
                success ==> done,
                ({
                    let rest = lbf_run(m, near, detectors@, decoding@, (max_iter - i) as nat);
                    &&& done ==> rest == (LbfOutcome { decoding: decoding@, rounds: 0, success })
                    &&& out == (LbfOutcome { rounds: (rest.rounds + i) as nat, ..rest })
                }),
            decreases max_iter - i, (if done { 0int } else { 1int }),
        {
            let ghost start = decoding@;
            let parities: Vec<Bit> = self.compute_check_parities(&decoding, detectors);
            proof {
                lemma_lbf_step(m, near, detectors@, start, (max_iter - i) as nat);
            }
            let clear: bool = is_zero(&parities);
            if clear {
                success = true;
                done = true;
            } else {
                let any: bool = self.flip_round(&mut decoding, &parities);
                if any {
                    i += 1;
                } else {
                    assert(decoding@ =~= start) by {
                        assert forall|v: int| 0 <= v < m.cols implies decoding@[v] == start[v] by {
                            assert(!flips(m, parities@, near[v]@, v));
                        }
                    }
                    done = true;
                }
            }
        }
        if !done {
            let parities: Vec<Bit> = self.compute_check_parities(&decoding, detectors);
            success = is_zero(&parities);
        }
        self.current_iteration = i;
        let decoded_detectors: Vec<Bit> = self.check_matrix.mul_mod2(&decoding);
        let r = DecodeResult {
            decoding,
            decoded_detectors,
            posterior_ratios: vec![0; cols],
            success,
            decoding_quality: 0,
            iterations: i,
            max_iter,
            logical_gap: None,
            extra: BPExtraResult::LBFTrace { converged: success || i < max_iter },
        };
        assert(r.posterior_ratios@ =~= Seq::new(m.cols, |v: int| 0i64));
        r
    }
}

/// Whether every entry is zero.
fn is_zero(s: &Vec<Bit>) -> (r: bool)
    ensures
        r == all_zero(s@),
{
    let mut i: usize = 0;
    while i < s.len()
        invariant
            i <= s.len(),
            forall|k: int| 0 <= k < i ==> #[trigger] s@[k] == 0,
        decreases s.len() - i,
    {
        if s[i] != 0 {
            assert(s@[i as int] != 0);
            return false;
        }
        i += 1;
    }
    true
}

/// The lists of a decoder are those of the edges of one graph.
proof fn lemma_lists_transposed(d: LbfDecoder)
    requires
        d.wf(),
    ensures
        lists_valid(d.variable_to_checks@, d.check_to_variables@),
        transposed(d.variable_to_checks@, d.check_to_variables@),
{
    let m = d.check_matrix@;
    let vs = d.variable_to_checks@;
    let cs = d.check_to_variables@;
    assert forall|v: int, i: int| 0 <= v < vs.len() && 0 <= i < vs[v].len() implies #[trigger]
        vs[v][i] < cs.len() by {
        assert(vs[v]@ == m.col(v));
        lemma_col_sorted(m, v);
    }
    assert forall|c: int, i: int| 0 <= c < cs.len() && 0 <= i < cs[c].len() implies #[trigger]
        cs[c][i] < vs.len() by {
        assert(cs[c]@ == m.row(c));
        assert(m.row(c)[i] < m.cols);
    }
    assert forall|v: int, c: int|
        #![trigger vs[v]@.contains(c as usize)]
        0 <= v < vs.len() && 0 <= c < cs.len() implies (vs[v]@.contains(c as usize)
        <==> cs[c]@.contains(v as usize)) by {
        assert(vs[v]@ == m.col(v));
        assert(cs[c]@ == m.row(c));
        lemma_entry_col(m, c, v);
    }
}

/// Sharing a check is symmetric.
proof fn lemma_linked_symmetric(vs: Seq<Vec<usize>>, cs: Seq<Vec<usize>>, w: int, u: int)
    requires
        lists_valid(vs, cs),
        transposed(vs, cs),
        0 <= w < vs.len() <= usize::MAX,
        0 <= u < vs.len(),
        linked(vs, cs, w, u),
    ensures
        linked(vs, cs, u, w),
{
    let (i, j) = choose|i: int, j: int|
        #![trigger cs[vs[w][i] as int][j]]
        0 <= i < vs[w].len() && 0 <= j < cs[vs[w][i] as int].len() && cs[vs[w][i] as int][j] == u;
    let c = vs[w][i] as int;
    assert(vs[w]@[i] == c as usize);
    assert(vs[w]@.contains(c as usize));
    assert(cs[c]@[j] == u as usize);
    assert(cs[c]@.contains(w as usize));
    assert(vs[u]@.contains(c as usize));
    let k = choose|k: int| 0 <= k < vs[u]@.len() && vs[u]@[k] == c as usize;
    let l = choose|l: int| 0 <= l < cs[c]@.len() && cs[c]@[l] == w as usize;
    assert(vs[u][k] == c);
    assert(cs[vs[u][k] as int][l] == w);
}

/// A step before a path.
proof fn lemma_reach_prepend(
    vs: Seq<Vec<usize>>,
    cs: Seq<Vec<usize>>,
    v: int,
    w: int,
    u: int,
    hops: nat,
)
    requires
        0 <= v < vs.len(),
        0 <= w < vs.len(),
        0 <= u < vs.len(),
        linked(vs, cs, v, w),
        reaches(vs, cs, w, u, hops),
    ensures
        reaches(vs, cs, v, u, hops + 1),
    decreases hops,
{
    if hops == 0 {
        assert(within(vs, cs, v, 0)[v]);
        assert(linked_below(vs, cs, within(vs, cs, v, 0), vs.len() as int, u));
    } else {
        let h = (hops - 1) as nat;
        let near = within(vs, cs, w, h);
        if near[u] {
            lemma_reach_prepend(vs, cs, v, w, u, h);
        } else {
            let x = choose|x: int| 0 <= x < vs.len() && near[x] && #[trigger] linked(vs, cs, x, u);
            lemma_reach_prepend(vs, cs, v, w, x, h);
            assert(within(vs, cs, v, hops)[x]);
            assert(linked_below(vs, cs, within(vs, cs, v, hops), vs.len() as int, u));
        }
    }
}

/// Being near is symmetric.
proof fn lemma_reaches_symmetric(
    vs: Seq<Vec<usize>>,
    cs: Seq<Vec<usize>>,
    v: int,
    u: int,
    hops: nat,
)
    requires
        lists_valid(vs, cs),
        transposed(vs, cs),
        0 <= v < vs.len() <= usize::MAX,
        0 <= u < vs.len(),
        reaches(vs, cs, v, u, hops),
    ensures
        reaches(vs, cs, u, v, hops),
    decreases hops,
{
    if hops > 0 {
        let h = (hops - 1) as nat;
        let near = within(vs, cs, v, h);
        if near[u] {
            lemma_reaches_symmetric(vs, cs, v, u, h);
        } else {
            let x = choose|x: int| 0 <= x < vs.len() && near[x] && #[trigger] linked(vs, cs, x, u);
            lemma_reaches_symmetric(vs, cs, v, x, h);
            lemma_linked_symmetric(vs, cs, x, u);
            lemma_reach_prepend(vs, cs, u, x, v, h);
        }
    }
}

/// What is near stays near with more steps.
proof fn lemma_reaches_more(
    vs: Seq<Vec<usize>>,
    cs: Seq<Vec<usize>>,
    v: int,
    u: int,
    hops: nat,
    more: nat,
)
    requires
        0 <= u < vs.len(),
        hops <= more,
        reaches(vs, cs, v, u, hops),
    ensures
        reaches(vs, cs, v, u, more),
    decreases more,
{
    if hops < more {
        lemma_reaches_more(vs, cs, v, u, hops, (more - 1) as nat);
    }
}

/// A variable has another in its neighbourhood exactly if the other has it.
pub proof fn law_neighborhood_symmetric(
    vs: Seq<Vec<usize>>,
    cs: Seq<Vec<usize>>,
    v: int,
    u: int,
    k_step: nat,
    near_v: Seq<usize>,
    near_u: Seq<usize>,
)
    requires
        lists_valid(vs, cs),
        transposed(vs, cs),
        0 <= v < vs.len() <= usize::MAX,
        0 <= u < vs.len(),
        is_neighborhood(vs, cs, v, k_step, near_v),
        is_neighborhood(vs, cs, u, k_step, near_u),
    ensures
        near_v.contains(u as usize) <==> near_u.contains(v as usize),
{
    if near_v.contains(u as usize) {
        lemma_reaches_symmetric(vs, cs, v, u, k_step / 2);
    }
    if near_u.contains(v as usize) {
        lemma_reaches_symmetric(vs, cs, u, v, k_step / 2);
    }
}

/// A neighbourhood keeps its variables with more steps.
pub proof fn law_neighborhood_grows(
    vs: Seq<Vec<usize>>,
    cs: Seq<Vec<usize>>,
    v: int,
    k_step: nat,
    more: nat,
    near: Seq<usize>,
    far: Seq<usize>,
)
    requires
        vs.len() <= usize::MAX,
        k_step <= more,
        is_neighborhood(vs, cs, v, k_step, near),
        is_neighborhood(vs, cs, v, more, far),
    ensures
        forall|u: usize| #[trigger] near.contains(u) ==> far.contains(u),
{
    assert forall|u: usize| #[trigger] near.contains(u) implies far.contains(u) by {
        let i = choose|i: int| 0 <= i < near.len() && near[i] == u;
        assert(near[i] < vs.len());
        assert(near.contains(u as int as usize));
        lemma_reaches_more(vs, cs, v, u as int, k_step / 2, more / 2);
        assert(far.contains(u as int as usize));
    }
}

/// One step more than an even number of them adds nothing: the neighbourhood is the same.
pub proof fn law_odd_step_adds_nothing(
    vs: Seq<Vec<usize>>,
    cs: Seq<Vec<usize>>,
    v: int,
    k_step: nat,
    near: Seq<usize>,
    odd: Seq<usize>,
)
    requires
        vs.len() <= usize::MAX,
        k_step % 2 == 0,
        is_neighborhood(vs, cs, v, k_step, near),
        is_neighborhood(vs, cs, v, k_step + 1, odd),
    ensures
        odd == near,
{
    law_neighborhood_grows(vs, cs, v, k_step, k_step + 1, near, odd);
    assert forall|u: usize| #[trigger] odd.contains(u) implies near.contains(u) by {
        let i = choose|i: int| 0 <= i < odd.len() && odd[i] == u;
        assert(odd[i] < vs.len());
        assert(odd.contains(u as int as usize));
        assert((k_step + 1) / 2 == k_step / 2);
        assert(near.contains(u as int as usize));
    }
    lemma_increasing_equal(near, odd);
}

/// Two increasing lists of the same numbers are the same.
proof fn lemma_increasing_equal(a: Seq<usize>, b: Seq<usize>)
    requires
        forall|i: int, j: int| 0 <= i < j < a.len() ==> a[i] < a[j],
        forall|i: int, j: int| 0 <= i < j < b.len() ==> b[i] < b[j],
        forall|u: usize| #[trigger] a.contains(u) <==> b.contains(u),
    ensures
        a == b,
    decreases a.len(),
{
    if a.len() == 0 {
        if b.len() > 0 {
            assert(b.contains(b[0]));
            assert(a.contains(b[0]));
        }
        assert(a =~= b);
    } else {
        assert(a.contains(a.last()));
        assert(b.contains(a.last()));
        assert(b.contains(b.last()));
        assert(a.contains(b.last()));
        let i = choose|i: int| 0 <= i < b.len() && b[i] == a.last();
        let j = choose|j: int| 0 <= j < a.len() && a[j] == b.last();
        assert(a.last() == b.last());
        let x = a.drop_last();
        let y = b.drop_last();
        assert forall|u: usize| #[trigger] x.contains(u) <==> y.contains(u) by {
            if x.contains(u) {
                let k = choose|k: int| 0 <= k < x.len() && x[k] == u;
                assert(a[k] == u);
                assert(a.contains(u));
                assert(b.contains(u));
                let l = choose|l: int| 0 <= l < b.len() && b[l] == u;
                assert(y[l] == u);
            }
            if y.contains(u) {
                let k = choose|k: int| 0 <= k < y.len() && y[k] == u;
                assert(b[k] == u);
                assert(b.contains(u));
                assert(a.contains(u));
                let l = choose|l: int| 0 <= l < a.len() && a[l] == u;
                assert(x[l] == u);
            }
        }
        lemma_increasing_equal(x, y);
        assert(a =~= x.push(a.last()));
        assert(b =~= y.push(b.last()));
    }
}

/// Without steps a variable has no neighbours.
pub proof fn law_no_steps_no_neighbours(
    vs: Seq<Vec<usize>>,
    cs: Seq<Vec<usize>>,
    v: int,
    near: Seq<usize>,
)
    requires
        vs.len() <= usize::MAX,
        is_neighborhood(vs, cs, v, 0, near),
    ensures
        near.len() == 0,
{
    if near.len() > 0 {
        let u = near[0];
        assert(near.contains(u as int as usize));
        assert(reaches(vs, cs, v, u as int, 0));
    }
}

/// Two variables that compete are never flipped in the same round.
pub proof fn law_competitors_do_not_flip_together(d: LbfDecoder, parities: Seq<Bit>, v: int, u: int)
    requires
        d.wf(),
        0 <= v < d.check_matrix@.cols,
        0 <= u < d.check_matrix@.cols,
        d.variable_neighborhoods[v]@.contains(u as usize),
        flips(d.check_matrix@, parities, d.variable_neighborhoods[v]@, v),
    ensures
        !flips(d.check_matrix@, parities, d.variable_neighborhoods[u]@, u),
{
    let m = d.check_matrix@;
    let nv = d.variable_neighborhoods[v]@;
    let nu = d.variable_neighborhoods[u]@;
    let k = d.config.k_step as nat;
    assert(is_neighborhood(d.variable_to_checks@, d.check_to_variables@, v, k, nv));
    assert(is_neighborhood(d.variable_to_checks@, d.check_to_variables@, u, k, nu));
    lemma_lists_transposed(d);
    law_neighborhood_symmetric(d.variable_to_checks@, d.check_to_variables@, v, u, k, nv, nu);
    assert(nu.contains(v as usize));
    let i = choose|i: int| 0 <= i < nv.len() && nv[i] == u as usize;
    let j = choose|j: int| 0 <= j < nu.len() && nu[j] == v as usize;
    assert(!better(m, parities, nv[i] as int, v));
    assert(better(m, parities, v, u));
    assert(better(m, parities, nu[j] as int, u));
}

/// Local bit flipping reports a success exactly if its decoding explains the syndrome, and one
/// that it gives up on before the last round has no variable left to flip.
pub proof fn law_lbf_outcome(
    m: MatrixModel,
    near: Seq<Vec<usize>>,
    syndrome: Seq<Bit>,
    decoding: Seq<Bit>,
    n: nat,
)
    requires
        m.wf(),
        syndrome.len() == m.rows,
        bits(syndrome),
        decoding.len() == m.cols,
    ensures
        ({
            let out = lbf_run(m, near, syndrome, decoding, n);
            &&& out.success <==> m.mul_mod2(out.decoding) == syndrome
            &&& out.rounds <= n
            &&& !out.success && out.rounds < n ==> {
                let parities = check_parities(m, syndrome, out.decoding);
                &&& !all_zero(parities)
                &&& forall|v: int|
                    0 <= v < m.cols ==> !flips(m, parities, (#[trigger] near[v])@, v)
            }
        }),
    decreases n,
{
    let parities = check_parities(m, syndrome, decoding);
    let out = lbf_run(m, near, syndrome, decoding, n);
    if all_zero(parities) {
        assert forall|c: int| 0 <= c < m.rows implies #[trigger] m.mul_mod2(decoding)[c]
            == syndrome[c] by {
            assert(parities[c] == 0);
            assert(syndrome[c] == 0 || syndrome[c] == 1);
        }
        assert(m.mul_mod2(decoding) =~= syndrome);
    } else if m.mul_mod2(decoding) == syndrome {
        assert forall|c: int| 0 <= c < parities.len() implies #[trigger] parities[c] == 0 by {
            assert(m.mul_mod2(decoding)[c] == syndrome[c]);
            assert(syndrome[c] == 0 || syndrome[c] == 1);
        }
    }
    if n > 0 && !all_zero(parities) && !quiet(m, parities, near) {
        law_lbf_outcome(m, near, syndrome, flipped(m, parities, near, decoding), (n - 1) as nat);
    }
}

impl LbfDecoder {
    /// How flipping ends.
    pub open spec fn flipping(self, det: Seq<Bit>) -> LbfOutcome {
        let m = self.check_matrix@;
        lbf_run(
            m,
            self.variable_neighborhoods@,
            det,
            zero_bits(m.cols),
            self.config.max_iter as nat,
        )
    }
}

impl Decoder for LbfDecoder {
    type M = LbfDecoder;

    open spec fn model(&self) -> LbfDecoder {
        *self
    }

    open spec fn ready(m: LbfDecoder) -> bool {
        m.wf()
    }

    open spec fn code(m: LbfDecoder) -> MatrixModel {
        m.check_matrix@
    }

    open spec fn weights(m: LbfDecoder) -> Seq<i64> {
        Seq::new(m.check_matrix@.cols, |v: int| 0i64)
    }

    open spec fn outcome(m: LbfDecoder, det: Seq<Bit>) -> ResultModel {
        let out = m.flipping(det);
        ResultModel {
            decoding: out.decoding,
            decoded_detectors: m.check_matrix@.mul_mod2(out.decoding),
            posterior: Seq::new(m.check_matrix@.cols, |v: int| 0i64),
            success: out.success,
            quality: 0,
            iterations: out.rounds,
            max_iter: m.config.max_iter as nat,
            gap: None,
        }
    }

    open spec fn noted(m: LbfDecoder, det: Seq<Bit>, extra: BPExtraResult) -> bool {
        let out = m.flipping(det);
        extra == (BPExtraResult::LBFTrace {
            converged: out.success || out.rounds < m.config.max_iter,
        })
    }

    open spec fn next(m: LbfDecoder, det: Seq<Bit>) -> LbfDecoder {
        LbfDecoder { current_iteration: m.flipping(det).rounds as usize, ..m }
    }

    open spec fn lasts(m: LbfDecoder, n: nat) -> bool {
        true
    }

    proof fn lemma_ready(m: LbfDecoder) {
    }

    proof fn lemma_lasts(m: LbfDecoder, det: Seq<Bit>, n: nat) {
    }

    fn can_decode(&self, n: usize) -> (r: bool) {
        true
    }

    fn check_matrix(&self) -> (r: &SparseBitMatrix) {
        &self.check_matrix
    }

    fn log_prior_ratios(&self) -> (r: Vec<i64>) {
        let r: Vec<i64> = vec![0; self.check_matrix.cols];
        assert(r@ =~= Self::weights(*self));
        r
    }

    fn decode_detailed(&mut self, detectors: &Vec<Bit>) -> (r: DecodeResult) {
        let ghost m = *self;
        let r = LbfDecoder::decode_detailed(self, detectors);
        assert(Self::noted(m, detectors@, r.extra));
        proof {
            if are_bits(detectors@) {
                assert(bits(detectors@)) by {
                    assert forall|i: int| 0 <= i < detectors@.len() implies #[trigger] detectors@[i]
                        == 0 || detectors@[i] == 1 by {
                        assert(detectors@[i] <= 1);
                    }
                }
                law_lbf_outcome(
                    m.check_matrix@,
                    m.variable_neighborhoods@,
                    detectors@,
                    zero_bits(m.check_matrix@.cols),
                    m.config.max_iter as nat,
                );
            }
        }
        r
    }
}

} // verus!
