//! Localized statistics decoding: clusters grow from the unexplained checks, merge where they
//! meet, and are solved one by one.

use vstd::prelude::*;

use crate::arith::abs;
use crate::gf2::{is_bits, is_table, lemma_parity_tail, parity, solve_system_rows, solves};
use crate::matrix::{
    dot, lemma_col_sorted, lemma_entry_col, lemma_row_sorted, Bit, MatrixModel, SparseBitMatrix,
};
use crate::union_find::{find, forest, joined, owners, singletons, union};

verus! {

/// The ways in which local statistics can be searched.
#[derive(Debug, Clone, Copy, PartialEq, Eq, Structural)]
#[allow(non_camel_case_types)]
pub enum LsdMethod {
    LSD_0,
    LSD_E,
    LSD_CS,
}

impl LsdMethod {
    /// The method of a given name; the plain one if the name is unknown.
    pub fn from_str(s: &str) -> (r: Self)
        ensures
            r == (if s@ == "LSD_E"@ {
                LsdMethod::LSD_E
            } else if s@ == "LSD_CS"@ {
                LsdMethod::LSD_CS
            } else {
                LsdMethod::LSD_0
            }),
    {
        if crate::names::same_text(s, "LSD_E") {
            LsdMethod::LSD_E
        } else if crate::names::same_text(s, "LSD_CS") {
            LsdMethod::LSD_CS
        } else {
            LsdMethod::LSD_0
        }
    }
}

/// The state of a search. `owner` names the cluster that each cluster has been merged into,
/// itself if none; a bit or check belongs to the cluster that owns it.
#[verifier::ext_equal]
pub struct LsdModel {
    pub owner: Seq<usize>,
    pub active: Seq<bool>,
    pub valid: Seq<bool>,
    pub bit_owner: Seq<Option<usize>>,
    pub check_owner: Seq<Option<usize>>,
    pub correction: Seq<Bit>,
}

/// The parity of the bits of `y` in check `c`.
pub open spec fn check_parity(m: MatrixModel, y: Seq<Bit>, c: int) -> bool {
    dot(m.row(c), y) % 2 == 1
}

/// Cluster `o` is to be grown and solved.
pub open spec fn due(s: LsdModel, o: int) -> bool {
    s.owner[o] == o && s.active[o] && !s.valid[o]
}

/// Bit `x` is next to cluster `o` but not in it.
pub open spec fn candidate(m: MatrixModel, s: LsdModel, o: int, x: int) -> bool {
    &&& 0 <= x < m.cols
    &&& s.bit_owner[x] != Some(o as usize)
    &&& exists|c: int|
        0 <= c < m.rows && s.check_owner[c] == Some(o as usize) && #[trigger] m.entry(c, x)
}

/// Bit `x` is not surer than bit `y`: the magnitude of its posterior is less, or the same and
/// `x` does not come after `y`.
pub open spec fn weakest_of(posterior: Seq<i64>, x: int, y: int) -> bool {
    ||| abs(posterior[x] as int) < abs(posterior[y] as int)
    ||| abs(posterior[x] as int) == abs(posterior[y] as int) && x <= y
}

/// Bit `x` is the weakest candidate of cluster `o`, the first of these.
pub open spec fn best_candidate(
    m: MatrixModel,
    s: LsdModel,
    posterior: Seq<i64>,
    o: int,
    x: int,
) -> bool {
    &&& candidate(m, s, o, x)
    &&& forall|y: int| #[trigger] candidate(m, s, o, y) ==> weakest_of(posterior, x, y)
}

/// Cluster `o` owns bit `x` or a check next to it.
pub open spec fn absorbed(m: MatrixModel, s: LsdModel, x: int, o: int) -> bool {
    ||| s.bit_owner[x] == Some(o as usize)
    ||| exists|c: int|
        0 <= c < m.rows && s.check_owner[c] == Some(o as usize) && #[trigger] m.entry(c, x)
}

/// The owner after cluster `o` has taken bit `x`.
pub open spec fn owner_after(
    m: MatrixModel,
    s: LsdModel,
    o: int,
    x: int,
    was: Option<usize>,
) -> Option<usize> {
    match was {
        Some(k) => if absorbed(m, s, x, k as int) {
            Some(o as usize)
        } else {
            Some(k)
        },
        None => None,
    }
}

/// Cluster `o` has taken bit `x` and the checks next to it, and has merged every cluster
/// that owned one of them.
pub open spec fn grown(m: MatrixModel, s: LsdModel, o: int, x: int) -> LsdModel {
    let bits = Seq::new(
        m.cols,
        |y: int|
            if y == x {
                Some(o as usize)
            } else {
                owner_after(m, s, o, x, s.bit_owner[y])
            },
    );
    LsdModel {
        owner: Seq::new(
            s.owner.len(),
            |k: int| if absorbed(m, s, x, s.owner[k] as int) { o as usize } else { s.owner[k] },
        ),
        active: Seq::new(
            s.owner.len(),
            |k: int|
                if k != o && absorbed(m, s, x, s.owner[k] as int) {
                    false
                } else {
                    s.active[k]
                },
        ),
        valid: Seq::new(
            s.owner.len(),
            |k: int|
                if k != o && absorbed(m, s, x, s.owner[k] as int) {
                    true
                } else {
                    s.valid[k]
                },
        ),
        bit_owner: bits,
        check_owner: Seq::new(
            m.rows,
            |c: int|
                if m.entry(c, x) {
                    Some(o as usize)
                } else {
                    owner_after(m, s, o, x, s.check_owner[c])
                },
        ),
        correction: Seq::new(
            m.cols,
            |y: int| if bits[y] == Some(o as usize) { 0 as Bit } else { s.correction[y] },
        ),
    }
}

/// Cluster `o` has been looked at for growth: it takes its best candidate, or rests if it
/// has none.
pub open spec fn grow_step(m: MatrixModel, s: LsdModel, posterior: Seq<i64>, o: int) -> LsdModel {
    if !due(s, o) {
        s
    } else if exists|x: int| best_candidate(m, s, posterior, o, x) {
        grown(m, s, o, choose|x: int| best_candidate(m, s, posterior, o, x))
    } else {
        LsdModel { active: s.active.update(o, false), ..s }
    }
}

/// Whether cluster `o` takes a bit when it is looked at.
pub open spec fn grows(m: MatrixModel, s: LsdModel, posterior: Seq<i64>, o: int) -> bool {
    due(s, o) && exists|x: int| best_candidate(m, s, posterior, o, x)
}

/// The clusters below `n` have been looked at for growth, in order.
pub open spec fn grow_all(m: MatrixModel, s: LsdModel, posterior: Seq<i64>, n: int) -> LsdModel
    decreases n,
{
    if n <= 0 {
        s
    } else {
        grow_step(m, grow_all(m, s, posterior, n - 1), posterior, n - 1)
    }
}

/// Whether any of the clusters below `n` takes a bit.
pub open spec fn any_grows(m: MatrixModel, s: LsdModel, posterior: Seq<i64>, n: int) -> bool
    decreases n,
{
    n > 0 && (any_grows(m, s, posterior, n - 1) || grows(
        m,
        grow_all(m, s, posterior, n - 1),
        posterior,
        n - 1,
    ))
}

/// `y` sets only bits of cluster `o` and explains all its checks.
pub open spec fn explains_locally(
    m: MatrixModel,
    syndrome: Seq<Bit>,
    s: LsdModel,
    o: int,
    y: Seq<Bit>,
) -> bool {
    &&& y.len() == m.cols
    &&& is_bits(y)
    &&& forall|x: int| 0 <= x < m.cols && #[trigger] y[x] == 1 ==> s.bit_owner[x] == Some(o as usize)
    &&& explains(m, syndrome, s, o, y)
}

/// The parities of `y` in the checks of cluster `o` are the syndrome.
pub open spec fn explains(
    m: MatrixModel,
    syndrome: Seq<Bit>,
    s: LsdModel,
    o: int,
    y: Seq<Bit>,
) -> bool {
    forall|c: int|
        0 <= c < m.rows && #[trigger] s.check_owner[c] == Some(o as usize) ==> check_parity(m, y, c)
            == (syndrome[c] == 1)
}

/// The bits of cluster `o` can explain its checks.
pub open spec fn solvable(m: MatrixModel, syndrome: Seq<Bit>, s: LsdModel, o: int) -> bool {
    exists|y: Seq<Bit>| explains_locally(m, syndrome, s, o, y)
}

/// Every due cluster below `n` that its bits can explain has been solved; the others are as
/// they were.
pub open spec fn solved_below(
    m: MatrixModel,
    syndrome: Seq<Bit>,
    s: LsdModel,
    t: LsdModel,
    n: int,
) -> bool {
    &&& t.owner == s.owner
    &&& t.bit_owner == s.bit_owner
    &&& t.check_owner == s.check_owner
    &&& t.active.len() == s.active.len()
    &&& t.valid.len() == s.valid.len()
    &&& t.correction.len() == s.correction.len()
    &&& forall|o: int|
        #![trigger t.valid[o]]
        #![trigger t.active[o]]
        0 <= o < s.owner.len() ==> {
            let solve = o < n && due(s, o) && solvable(m, syndrome, s, o);
            &&& t.valid[o] == (s.valid[o] || solve)
            &&& t.active[o] == (s.active[o] && !solve)
            &&& solve ==> explains(m, syndrome, s, o, t.correction)
        }
    &&& forall|x: int|
        0 <= x < m.cols ==> {
            ||| #[trigger] t.correction[x] == s.correction[x]
            ||| (t.correction[x] <= 1 && exists|o: int|
                0 <= o < n && s.bit_owner[x] == Some(o as usize) && #[trigger] due(s, o)
                    && solvable(m, syndrome, s, o))
        }
}

/// The number of unexplained checks below `n`.
pub open spec fn seeds_below(syndrome: Seq<Bit>, n: int) -> int
    decreases n,
{
    if n <= 0 {
        0
    } else {
        seeds_below(syndrome, n - 1) + (if syndrome[n - 1] == 1 {
            1int
        } else {
            0int
        })
    }
}

/// The start of a search: one cluster for each unexplained check.
pub open spec fn seeded(m: MatrixModel, syndrome: Seq<Bit>) -> LsdModel {
    let k = seeds_below(syndrome, m.rows as int) as nat;
    LsdModel {
        owner: Seq::new(k, |i: int| i as usize),
        active: Seq::new(k, |i: int| true),
        valid: Seq::new(k, |i: int| false),
        bit_owner: Seq::new(m.cols, |x: int| None),
        check_owner: Seq::new(
            m.rows,
            |c: int|
                if syndrome[c] == 1 {
                    Some(seeds_below(syndrome, c) as usize)
                } else {
                    None
                },
        ),
        correction: Seq::new(m.cols, |x: int| 0 as Bit),
    }
}

/// All due clusters are looked at for growth, then all due clusters are solved if possible.
pub open spec fn lsd_round(
    m: MatrixModel,
    syndrome: Seq<Bit>,
    posterior: Seq<i64>,
    s: LsdModel,
    t: LsdModel,
) -> bool {
    let n = s.owner.len() as int;
    solved_below(m, syndrome, grow_all(m, s, posterior, n), t, n)
}

/// `trace` is a search: it starts with the seeds, goes on round by round as long as some
/// cluster grows, and ends after a hundred rounds at most.
pub open spec fn lsd_trace(
    m: MatrixModel,
    syndrome: Seq<Bit>,
    posterior: Seq<i64>,
    trace: Seq<LsdModel>,
) -> bool {
    let n = seeds_below(syndrome, m.rows as int);
    &&& 2 <= trace.len() <= 101
    &&& trace[0] == seeded(m, syndrome)
    &&& forall|i: int|
        0 <= i < trace.len() - 1 ==> lsd_round(
            m,
            syndrome,
            posterior,
            #[trigger] trace[i],
            trace[i + 1],
        )
    &&& forall|i: int|
        0 <= i < trace.len() - 2 ==> any_grows(m, #[trigger] trace[i], posterior, n)
    &&& trace.len() == 101 || !any_grows(m, trace[trace.len() - 2], posterior, n)
}

/// The state of a search.
#[derive(Clone, Debug)]
pub struct LsdSearch {
    pub parent: Vec<usize>,
    pub active: Vec<bool>,
    pub valid: Vec<bool>,
    pub bit_owner: Vec<Option<usize>>,
    pub check_owner: Vec<Option<usize>>,
    pub correction: Vec<Bit>,
}

impl View for LsdSearch {
    type V = LsdModel;

    open spec fn view(&self) -> LsdModel {
        LsdModel {
            owner: owners(self.parent@),
            active: self.active@,
            valid: self.valid@,
            bit_owner: self.bit_owner@,
            check_owner: self.check_owner@,
            correction: self.correction@,
        }
    }
}

/// Every owner is a cluster that has not been merged.
pub open spec fn owned_by_roots(map: Seq<Option<usize>>, owner: Seq<usize>) -> bool {
    forall|x: int|
        0 <= x < map.len() ==> (#[trigger] map[x] matches Some(k) ==> k < owner.len()
            && owner[k as int] == k)
}

impl LsdModel {
    /// All parts fit the matrix and each other.
    pub open spec fn wf(self, m: MatrixModel) -> bool {
        &&& self.active.len() == self.owner.len()
        &&& self.valid.len() == self.owner.len()
        &&& self.bit_owner.len() == m.cols
        &&& self.check_owner.len() == m.rows
        &&& self.correction.len() == m.cols
        &&& is_bits(self.correction)
        &&& forall|k: int|
            0 <= k < self.owner.len() ==> {
                &&& #[trigger] self.owner[k] < self.owner.len()
                &&& self.owner[self.owner[k] as int] == self.owner[k]
            }
        &&& forall|k: int|
            0 <= k < self.owner.len() && self.owner[k] != k ==> !(#[trigger] self.active[k])
                && self.valid[k]
        &&& owned_by_roots(self.bit_owner, self.owner)
        &&& owned_by_roots(self.check_owner, self.owner)
    }
}

/// Cluster `o` owns bit `x` or one of its first `q` checks.
spec fn taken(s: LsdModel, m: MatrixModel, x: int, q: int, o: int) -> bool {
    ||| s.bit_owner[x] == Some(o as usize)
    ||| exists|a: int| 0 <= a < q && s.check_owner[#[trigger] m.col(x)[a] as int] == Some(o as usize)
}

proof fn lemma_taken_absorbed(m: MatrixModel, s: LsdModel, x: int, o: int)
    requires
        m.wf(),
        0 <= x < m.cols,
    ensures
        taken(s, m, x, m.col(x).len() as int, o) <==> absorbed(m, s, x, o),
{
    lemma_col_sorted(m, x);
    if s.bit_owner[x] != Some(o as usize) {
        if taken(s, m, x, m.col(x).len() as int, o) {
            let a = choose|a: int|
                0 <= a < m.col(x).len() && s.check_owner[#[trigger] m.col(x)[a] as int] == Some(
                    o as usize,
                );
            lemma_entry_col(m, m.col(x)[a] as int, x);
            assert(m.entry(m.col(x)[a] as int, x));
        }
        if absorbed(m, s, x, o) {
            let c = choose|c: int|
                0 <= c < m.rows && s.check_owner[c] == Some(o as usize) && #[trigger] m.entry(c, x);
            lemma_entry_col(m, c, x);
            let a = choose|a: int| 0 <= a < m.col(x).len() && #[trigger] m.col(x)[a] == c;
            assert(s.check_owner[m.col(x)[a] as int] == Some(o as usize));
        }
    }
}

impl LsdSearch {
    /// The parts fit the matrix and the merges form a forest.
    pub open spec fn wf(self, m: MatrixModel) -> bool {
        &&& forest(self.parent@)
        &&& self@.owner.len() == self.parent.len()
        &&& self@.wf(m)
    }
}

/// The dense form of row `c`.
spec fn dense_row(m: MatrixModel, c: int) -> Seq<Bit> {
    Seq::new(m.cols, |x: int| if m.entry(c, x) { 1 as Bit } else { 0 as Bit })
}

proof fn lemma_dot_prefix_parity(r: Seq<usize>, d: Seq<Bit>, y: Seq<Bit>, n: int)
    requires
        is_bits(y),
        0 <= n <= y.len(),
        d.len() == y.len(),
        forall|a: int, b: int| 0 <= a < b < r.len() ==> r[a] < r[b],
        forall|a: int| 0 <= a < r.len() ==> r[a] < n,
        forall|x: int|
            0 <= x < n ==> (#[trigger] d[x] == 1 <==> exists|k: int|
                0 <= k < r.len() && #[trigger] r[k] == x),
    ensures
        (dot(r, y) % 2 == 1) == parity(d, y, n),
        dot(r, y) >= 0,
    decreases n,
{
    if n == 0 {
        assert(r.len() == 0) by {
            if r.len() > 0 {
                assert(r[0] < n);
            }
        }
    } else if r.len() > 0 && r.last() == n - 1 {
        let t = r.drop_last();
        assert(d[n - 1] == 1) by {
            assert(r[r.len() - 1] == n - 1);
        }
        assert forall|x: int| 0 <= x < n - 1 implies (#[trigger] d[x] == 1 <==> exists|k: int|
            0 <= k < t.len() && #[trigger] t[k] == x) by {
            if d[x] == 1 {
                let k = choose|k: int| 0 <= k < r.len() && #[trigger] r[k] == x;
                assert(t[k] == x);
            }
            if exists|k: int| 0 <= k < t.len() && #[trigger] t[k] == x {
                let k = choose|k: int| 0 <= k < t.len() && #[trigger] t[k] == x;
                assert(r[k] == x);
            }
        }
        assert forall|a: int| 0 <= a < t.len() implies t[a] < n - 1 by {
            assert(r[a] < r[r.len() - 1]);
        }
        lemma_dot_prefix_parity(t, d, y, n - 1);
        assert(y[n - 1] == 0 || y[n - 1] == 1);
    } else {
        assert forall|a: int| 0 <= a < r.len() implies r[a] < n - 1 by {
            if r[a] == n - 1 {
                if a < r.len() - 1 {
                    assert(r[a] < r[r.len() - 1]);
                }
            }
        }
        assert(d[n - 1] != 1) by {
            if d[n - 1] == 1 {
                let k = choose|k: int| 0 <= k < r.len() && #[trigger] r[k] == n - 1;
                assert(r[k] < n - 1);
            }
        }
        lemma_dot_prefix_parity(r, d, y, n - 1);
    }
}

/// The parity of a check is the parity of its dense row.
proof fn lemma_check_parity_dense(m: MatrixModel, y: Seq<Bit>, c: int)
    requires
        m.wf(),
        0 <= c < m.rows,
        y.len() == m.cols,
        is_bits(y),
    ensures
        check_parity(m, y, c) == parity(dense_row(m, c), y, m.cols as int),
{
    lemma_row_sorted(m, c);
    lemma_dot_prefix_parity(m.row(c), dense_row(m, c), y, m.cols as int);
}

proof fn lemma_parity_support(a: Seq<Bit>, b: Seq<Bit>, y: Seq<Bit>, n: int)
    requires
        forall|x: int| 0 <= x < n && #[trigger] y[x] == 1 ==> (a[x] == 1) == (b[x] == 1),
    ensures
        parity(a, y, n) == parity(b, y, n),
    decreases n,
{
    if n > 0 {
        lemma_parity_support(a, b, y, n - 1);
        assert(y[n - 1] == 1 ==> (a[n - 1] == 1) == (b[n - 1] == 1));
    }
}

/// Replaces each owner by the cluster that it has been merged into.
fn relabel(map: &mut Vec<Option<usize>>, parent: &mut Vec<usize>)
    requires
        forest(old(parent)@),
        owners(old(parent)@).len() == old(parent).len(),
        forall|x: int|
            0 <= x < old(map).len() ==> (#[trigger] old(map)@[x] matches Some(k) ==> k < old(parent).len()),
    ensures
        forest(final(parent)@),
        owners(final(parent)@) == owners(old(parent)@),
        final(parent).len() == old(parent).len(),
        final(map).len() == old(map).len(),
        forall|x: int|
            0 <= x < old(map).len() ==> #[trigger] final(map)@[x] == (match old(map)@[x] {
                Some(k) => Some(owners(old(parent)@)[k as int]),
                None => None,
            }),
{
    let ghost before = map@;
    let ghost own = owners(parent@);
    let n: usize = map.len();
    let mut x: usize = 0;
    while x < n
        invariant
            x <= n,
            n == map.len() == before.len(),
            forest(parent@),
            owners(parent@) == own,
            parent.len() == own.len(),
            forall|y: int|
                0 <= y < n ==> (#[trigger] before[y] matches Some(k) ==> k < parent.len()),
            forall|y: int| x <= y < n ==> #[trigger] map@[y] == before[y],
            forall|y: int|
                0 <= y < x ==> #[trigger] map@[y] == (match before[y] {
                    Some(k) => Some(own[k as int]),
                    None => None,
                }),
        decreases n - x,
    {
        assert(map@[x as int] == before[x as int]);
        let here: Option<usize> = map[x];
        if let Some(k) = here {
            let r: usize = find(parent, k);
            map.set(x, Some(r));
        }
        x += 1;
    }
}

impl LsdSearch {
    /// Lets cluster `o` take bit `x`.
    fn grow(&mut self, check_matrix: &SparseBitMatrix, o: usize, x: usize)
        requires
            check_matrix@.wf(),
            old(self).wf(check_matrix@),
            o < old(self)@.owner.len(),
            old(self)@.owner[o as int] == o,
            x < check_matrix@.cols,
        ensures
            final(self).wf(check_matrix@),
            final(self)@ == grown(check_matrix@, old(self)@, o as int, x as int),
    {
        let ghost m = check_matrix@;
        let ghost s = self@;
        let ghost own0 = s.owner;
        let ghost xi = x as int;
        if let Some(k) = self.bit_owner[x] {
            assert(s.bit_owner[xi] is Some);
            union(&mut self.parent, k, o);
        }
        let checks: Vec<usize> = check_matrix.col_indices(x);
        proof {
            lemma_col_sorted(m, xi);
        }
        let mut q: usize = 0;
        while q < checks.len()
            invariant
                m == check_matrix@,
                m.wf(),
                xi == x < m.cols,
                s.wf(m),
                o < own0.len(),
                own0 == s.owner,
                own0[o as int] == o,
                checks@ == m.col(xi),
                forall|a: int| 0 <= a < checks.len() ==> checks[a] < m.rows,
                q <= checks.len(),
                forest(self.parent@),
                self.parent.len() == own0.len(),
                self.active@ == s.active,
                self.valid@ == s.valid,
                self.bit_owner@ == s.bit_owner,
                self.check_owner@ == s.check_owner,
                self.correction@ == s.correction,
                owners(self.parent@).len() == own0.len(),
                forall|k: int|
                    0 <= k < own0.len() ==> #[trigger] owners(self.parent@)[k] == (if taken(
                        s,
                        m,
                        xi,
                        q as int,
                        own0[k] as int,
                    ) {
                        o
                    } else {
                        own0[k]
                    }),
            decreases checks.len() - q,
        {
            let c: usize = checks[q];
            let ghost own1 = owners(self.parent@);
            proof {
                assert forall|k: int|
                    0 <= k < own0.len() implies (taken(s, m, xi, q + 1, #[trigger] own0[k] as int)
                    <==> taken(s, m, xi, q as int, own0[k] as int) || s.check_owner[c as int]
                    == Some(own0[k])) by {
                    assert(m.col(xi)[q as int] == c);
                    if taken(s, m, xi, q + 1, own0[k] as int) && s.bit_owner[xi] != Some(own0[k]) {
                        let a = choose|a: int|
                            0 <= a < q + 1 && s.check_owner[#[trigger] m.col(xi)[a] as int] == Some(own0[k]);
                        if a < q {
                            assert(s.check_owner[m.col(xi)[a] as int] == Some(own0[k]));
                        }
                    }
                    if taken(s, m, xi, q as int, own0[k] as int) && s.bit_owner[xi] != Some(own0[k]) {
                        let a = choose|a: int|
                            0 <= a < q && s.check_owner[#[trigger] m.col(xi)[a] as int] == Some(own0[k]);
                        assert(s.check_owner[m.col(xi)[a] as int] == Some(own0[k]));
                    }
                }
            }
            if let Some(k) = self.check_owner[c] {
                assert(s.check_owner[c as int] == Some(k));
                union(&mut self.parent, k, o);
                proof {
                    assert(own0[k as int] == k);
                    assert(own1[o as int] == o);
                    assert forall|j: int|
                        0 <= j < own0.len() implies #[trigger] owners(self.parent@)[j] == (if taken(
                        s,
                        m,
                        xi,
                        q + 1,
                        own0[j] as int,
                    ) {
                        o
                    } else {
                        own0[j]
                    }) by {
                        assert(owners(self.parent@) == joined(own1, k as int, o as int));
                    }
                }
            }
            q += 1;
        }
        proof {
            assert forall|k: int| 0 <= k < own0.len() implies (taken(
                s,
                m,
                xi,
                checks.len() as int,
                #[trigger] own0[k] as int,
            ) <==> absorbed(m, s, xi, own0[k] as int)) by {
                lemma_taken_absorbed(m, s, xi, own0[k] as int);
            }
        }
        let ghost own2 = owners(self.parent@);
        relabel(&mut self.bit_owner, &mut self.parent);
        relabel(&mut self.check_owner, &mut self.parent);
        self.bit_owner.set(x, Some(o));
        let ghost checks_before = self.check_owner@;
        let mut q: usize = 0;
        while q < checks.len()
            invariant
                m == check_matrix@,
                checks@ == m.col(xi),
                forall|a: int| 0 <= a < checks.len() ==> checks[a] < m.rows,
                q <= checks.len(),
                self.check_owner.len() == m.rows,
                checks_before.len() == m.rows,
                forest(self.parent@),
                owners(self.parent@) == own2,
                self.parent.len() == own0.len(),
                self.active@ == s.active,
                self.valid@ == s.valid,
                self.bit_owner.len() == m.cols,
                self.correction@ == s.correction,
                forall|y: int|
                    0 <= y < m.cols ==> #[trigger] self.bit_owner@[y] == (if y == x {
                        Some(o)
                    } else {
                        match s.bit_owner[y] {
                            Some(k) => Some(own2[k as int]),
                            None => None,
                        }
                    }),
                forall|c: int|
                    0 <= c < m.rows ==> #[trigger] self.check_owner@[c] == (if m.col(xi).take(
                        q as int,
                    ).contains(c as usize) {
                        Some(o)
                    } else {
                        checks_before[c]
                    }),
            decreases checks.len() - q,
        {
            let ghost before = self.check_owner@;
            let c: usize = checks[q];
            self.check_owner.set(c, Some(o));
            proof {
                let p = m.col(xi).take(q as int);
                assert(m.col(xi).take(q + 1) =~= p.push(c));
                assert forall|d: int|
                    0 <= d < m.rows implies #[trigger] self.check_owner@[d] == (if m.col(
                    xi,
                ).take(q + 1).contains(d as usize) {
                    Some(o)
                } else {
                    checks_before[d]
                }) by {
                    assert(before[d] == before[d]);
                    if d == c {
                        assert(p.push(c)[p.len() as int] == c);
                    } else {
                        if p.contains(d as usize) {
                            let a = choose|a: int| 0 <= a < p.len() && p[a] == d as usize;
                            assert(p.push(c)[a] == d as usize);
                        }
                        if p.push(c).contains(d as usize) {
                            let a = choose|a: int| 0 <= a < p.push(c).len() && p.push(c)[a] == d as usize;
                            assert(p[a] == d as usize);
                        }
                    }
                }
            }
            q += 1;
        }
        let ghost g = grown(m, s, o as int, xi);
        proof {
            assert(m.col(xi).take(checks.len() as int) =~= m.col(xi));
            assert forall|c: int|
                0 <= c < m.rows implies #[trigger] self.check_owner@[c] == g.check_owner[c] by {
                lemma_entry_col(m, c, xi);
                if m.col(xi).contains(c as usize) {
                    let a = choose|a: int| 0 <= a < m.col(xi).len() && m.col(xi)[a] == c as usize;
                    assert(m.col(xi)[a] == c);
                } else if m.entry(c, xi) {
                    let a = choose|a: int| 0 <= a < m.col(xi).len() && #[trigger] m.col(xi)[a] == c;
                    assert(m.col(xi)[a] == c as usize);
                }
                assert(s.check_owner[c] == s.check_owner[c]);
            }
            assert(self.check_owner@ =~= g.check_owner);
            assert forall|y: int|
                0 <= y < m.cols implies #[trigger] self.bit_owner@[y] == g.bit_owner[y] by {
                assert(s.bit_owner[y] == s.bit_owner[y]);
            }
            assert(self.bit_owner@ =~= g.bit_owner);
            assert(own2 =~= g.owner);
        }
        self.settle(o, Ghost(s), Ghost(g), Ghost(m), Ghost(xi));
    }

    /// Retires the clusters that have been merged into `o`, and forgets what they had solved.
    fn settle(
        &mut self,
        o: usize,
        Ghost(s): Ghost<LsdModel>,
        Ghost(g): Ghost<LsdModel>,
        Ghost(m): Ghost<MatrixModel>,
        Ghost(x): Ghost<int>,
    )
        requires
            m.wf(),
            s.wf(m),
            0 <= x < m.cols,
            o < s.owner.len(),
            s.owner[o as int] == o,
            g == grown(m, s, o as int, x),
            forest(old(self).parent@),
            old(self).parent.len() == s.owner.len(),
            old(self)@ == (LsdModel {
                active: s.active,
                valid: s.valid,
                correction: s.correction,
                ..g
            }),
        ensures
            final(self).wf(m),
            final(self)@ == g,
    {
        let n: usize = self.parent.len();
        let mut k: usize = 0;
        while k < n
            invariant
                k <= n,
                n == self.parent.len() == s.owner.len(),
                s.wf(m),
                o < n,
                s.owner[o as int] == o,
                g == grown(m, s, o as int, x),
                forest(self.parent@),
                owners(self.parent@) == g.owner,
                self.bit_owner@ == g.bit_owner,
                self.check_owner@ == g.check_owner,
                self.correction@ == s.correction,
                self.active.len() == n,
                self.valid.len() == n,
                forall|j: int| 0 <= j < k ==> #[trigger] self.active@[j] == g.active[j],
                forall|j: int| 0 <= j < k ==> #[trigger] self.valid@[j] == g.valid[j],
                forall|j: int| k <= j < n ==> #[trigger] self.active@[j] == s.active[j],
                forall|j: int| k <= j < n ==> #[trigger] self.valid@[j] == s.valid[j],
            decreases n - k,
        {
            let r: usize = find(&mut self.parent, k);
            proof {
                assert(s.owner[k as int] != k ==> !s.active[k as int] && s.valid[k as int]);
                assert(self.active@[k as int] == s.active[k as int]);
                assert(self.valid@[k as int] == s.valid[k as int]);
            }
            if r != k {
                self.active.set(k, false);
                self.valid.set(k, true);
            }
            k += 1;
        }
        let cols: usize = self.correction.len();
        let mut y: usize = 0;
        while y < cols
            invariant
                y <= cols,
                cols == m.cols,
                s.wf(m),
                g == grown(m, s, o as int, x),
                forest(self.parent@),
                n == self.parent.len(),
                owners(self.parent@) == g.owner,
                self.bit_owner@ == g.bit_owner,
                self.check_owner@ == g.check_owner,
                self.active@ == g.active,
                self.valid@ == g.valid,
                self.correction.len() == cols,
                forall|j: int| 0 <= j < y ==> #[trigger] self.correction@[j] == g.correction[j],
                forall|j: int| y <= j < cols ==> #[trigger] self.correction@[j] == s.correction[j],
            decreases cols - y,
        {
            assert(self.correction@[y as int] == s.correction[y as int]);
            let here: Option<usize> = self.bit_owner[y];
            if here == Some(o) {
                self.correction.set(y, 0);
            }
            y += 1;
        }
        proof {
            assert(self.correction@ =~= g.correction);
            assert(self@ =~= g);
            lemma_grown_wf(m, s, o as int, x);
        }
    }
}

/// Growth keeps the parts of a search fitting.
proof fn lemma_grown_wf(m: MatrixModel, s: LsdModel, o: int, x: int)
    requires
        m.wf(),
        s.wf(m),
        0 <= o < s.owner.len(),
        s.owner[o] == o,
        0 <= x < m.cols,
    ensures
        grown(m, s, o, x).wf(m),
{
    let g = grown(m, s, o, x);
    assert forall|k: int| 0 <= k < g.owner.len() implies {
        &&& #[trigger] g.owner[k] < g.owner.len()
        &&& g.owner[g.owner[k] as int] == g.owner[k]
    } by {
        assert(s.owner[k] < s.owner.len());
        assert(s.owner[s.owner[k] as int] == s.owner[k]);
    }
    assert forall|k: int|
        0 <= k < g.owner.len() && g.owner[k] != k implies !(#[trigger] g.active[k])
        && g.valid[k] by {
        assert(s.owner[k] != k ==> !s.active[k] && s.valid[k]);
    }
    assert forall|y: int|
        0 <= y < g.bit_owner.len() implies (#[trigger] g.bit_owner[y] matches Some(
        k,
    ) ==> k < g.owner.len() && g.owner[k as int] == k) by {
        assert(s.bit_owner[y] matches Some(k) ==> k < s.owner.len() && s.owner[k as int] == k);
    }
    assert forall|y: int|
        0 <= y < g.check_owner.len() implies (#[trigger] g.check_owner[y] matches Some(
        k,
    ) ==> k < g.owner.len() && g.owner[k as int] == k) by {
        assert(s.check_owner[y] matches Some(k) ==> k < s.owner.len() && s.owner[k as int] == k);
    }
    assert(is_bits(g.correction));
}

/// Whether bit `x` is next to a check of cluster `o` below `n`, or among the first `q`
/// entries of check `n`.
spec fn seen(m: MatrixModel, s: LsdModel, o: int, n: int, q: int, x: int) -> bool {
    &&& s.bit_owner[x] != Some(o as usize)
    &&& exists|c: int, k: int|
        #![trigger m.row(c)[k]]
        {
            &&& 0 <= c <= n
            &&& c < m.rows
            &&& s.check_owner[c] == Some(o as usize)
            &&& 0 <= k < m.row(c).len()
            &&& c == n ==> k < q
            &&& m.row(c)[k] == x
        }
}

/// `best` is the weakest of the bits that have been seen.
spec fn best_seen(
    m: MatrixModel,
    s: LsdModel,
    posterior: Seq<i64>,
    o: int,
    n: int,
    q: int,
    best: Option<usize>,
) -> bool {
    match best {
        Some(x) => {
            &&& x < m.cols
            &&& seen(m, s, o, n, q, x as int)
            &&& forall|y: int|
                0 <= y < m.cols && #[trigger] seen(m, s, o, n, q, y) ==> weakest_of(
                    posterior,
                    x as int,
                    y,
                )
        },
        None => forall|y: int| 0 <= y < m.cols ==> !#[trigger] seen(m, s, o, n, q, y),
    }
}

proof fn lemma_seen_step(m: MatrixModel, s: LsdModel, o: int, n: int, q: int, y: int)
    requires
        m.wf(),
        0 <= n < m.rows,
        s.check_owner[n] == Some(o as usize),
        0 <= q < m.row(n).len(),
    ensures
        seen(m, s, o, n, q + 1, y) <==> seen(m, s, o, n, q, y) || (s.bit_owner[y] != Some(o as usize)
            && m.row(n)[q] == y),
{
    if s.bit_owner[y] != Some(o as usize) {
        if seen(m, s, o, n, q + 1, y) {
            let (c, k) = choose|c: int, k: int|
                #![trigger m.row(c)[k]]
                {
                    &&& 0 <= c <= n
                    &&& c < m.rows
                    &&& s.check_owner[c] == Some(o as usize)
                    &&& 0 <= k < m.row(c).len()
                    &&& c == n ==> k < q + 1
                    &&& m.row(c)[k] == y
                };
            assert(m.row(c)[k] == y);
        }
        if seen(m, s, o, n, q, y) {
            let (c, k) = choose|c: int, k: int|
                #![trigger m.row(c)[k]]
                {
                    &&& 0 <= c <= n
                    &&& c < m.rows
                    &&& s.check_owner[c] == Some(o as usize)
                    &&& 0 <= k < m.row(c).len()
                    &&& c == n ==> k < q
                    &&& m.row(c)[k] == y
                };
            assert(m.row(c)[k] == y);
        }
        if m.row(n)[q] == y {
            assert(seen(m, s, o, n, q + 1, y));
        }
    }
}

proof fn lemma_seen_next(m: MatrixModel, s: LsdModel, o: int, n: int, y: int)
    requires
        m.wf(),
        0 <= n < m.rows,
    ensures
        seen(m, s, o, n + 1, 0, y) <==> seen(
            m,
            s,
            o,
            n,
            if s.check_owner[n] == Some(o as usize) {
                m.row(n).len() as int
            } else {
                0
            },
            y,
        ),
{
    if s.bit_owner[y] != Some(o as usize) {
        let q = if s.check_owner[n] == Some(o as usize) {
            m.row(n).len() as int
        } else {
            0
        };
        if seen(m, s, o, n + 1, 0, y) {
            let (c, k) = choose|c: int, k: int|
                #![trigger m.row(c)[k]]
                {
                    &&& 0 <= c <= n + 1
                    &&& c < m.rows
                    &&& s.check_owner[c] == Some(o as usize)
                    &&& 0 <= k < m.row(c).len()
                    &&& c == n + 1 ==> k < 0
                    &&& m.row(c)[k] == y
                };
            assert(m.row(c)[k] == y);
        }
        if seen(m, s, o, n, q, y) {
            let (c, k) = choose|c: int, k: int|
                #![trigger m.row(c)[k]]
                {
                    &&& 0 <= c <= n
                    &&& c < m.rows
                    &&& s.check_owner[c] == Some(o as usize)
                    &&& 0 <= k < m.row(c).len()
                    &&& c == n ==> k < q
                    &&& m.row(c)[k] == y
                };
            assert(m.row(c)[k] == y);
        }
    }
}

proof fn lemma_seen_all(m: MatrixModel, s: LsdModel, o: int, y: int)
    requires
        m.wf(),
        0 <= y < m.cols,
    ensures
        seen(m, s, o, m.rows as int, 0, y) <==> candidate(m, s, o, y),
{
    if s.bit_owner[y] != Some(o as usize) {
        if seen(m, s, o, m.rows as int, 0, y) {
            let (c, k) = choose|c: int, k: int|
                #![trigger m.row(c)[k]]
                {
                    &&& 0 <= c <= m.rows
                    &&& c < m.rows
                    &&& s.check_owner[c] == Some(o as usize)
                    &&& 0 <= k < m.row(c).len()
                    &&& c == m.rows ==> k < 0
                    &&& m.row(c)[k] == y
                };
            assert(m.row(c)[k] == y);
            assert(m.entry(c, y));
        }
        if candidate(m, s, o, y) {
            let c = choose|c: int|
                0 <= c < m.rows && s.check_owner[c] == Some(o as usize) && #[trigger] m.entry(c, y);
            let k = choose|k: int| 0 <= k < m.row(c).len() && #[trigger] m.row(c)[k] == y;
            assert(m.row(c)[k] == y);
        }
    }
}

/// The magnitude of a ratio.
fn wide_magnitude(x: i64) -> (r: i128)
    ensures
        r == abs(x as int),
{
    if x < 0 {
        -(x as i128)
    } else {
        x as i128
    }
}

impl LsdSearch {
    /// The weakest bit next to cluster `o`.
    fn best(&self, check_matrix: &SparseBitMatrix, posterior: &Vec<i64>, o: usize) -> (r: Option<
        usize,
    >)
        requires
            check_matrix@.wf(),
            self.wf(check_matrix@),
            posterior.len() == check_matrix@.cols,
        ensures
            match r {
                Some(x) => best_candidate(check_matrix@, self@, posterior@, o as int, x as int),
                None => forall|x: int| !#[trigger] candidate(check_matrix@, self@, o as int, x),
            },
    {
        let ghost m = check_matrix@;
        let ghost s = self@;
        let mut best: Option<usize> = None;
        let mut c: usize = 0;
        while c < check_matrix.rows
            invariant
                m == check_matrix@,
                s == self@,
                m.wf(),
                self.wf(m),
                posterior.len() == m.cols,
                c <= m.rows,
                best_seen(m, s, posterior@, o as int, c as int, 0, best),
            decreases check_matrix.rows - c,
        {
            let here: Option<usize> = self.check_owner[c];
            if here == Some(o) {
                let row: Vec<usize> = check_matrix.row_indices(c);
                proof {
                    lemma_row_sorted(m, c as int);
                }
                let mut q: usize = 0;
                while q < row.len()
                    invariant
                        m == check_matrix@,
                        s == self@,
                        m.wf(),
                        self.wf(m),
                        posterior.len() == m.cols,
                        c < m.rows,
                        s.check_owner[c as int] == Some(o),
                        row@ == m.row(c as int),
                        forall|a: int| 0 <= a < row.len() ==> row[a] < m.cols,
                        q <= row.len(),
                        best_seen(m, s, posterior@, o as int, c as int, q as int, best),
                    decreases row.len() - q,
                {
                    let x: usize = row[q];
                    let owned: Option<usize> = self.bit_owner[x];
                    proof {
                        assert forall|y: int| 0 <= y < m.cols implies (#[trigger] seen(
                            m,
                            s,
                            o as int,
                            c as int,
                            q + 1,
                            y,
                        ) <==> seen(m, s, o as int, c as int, q as int, y) || (s.bit_owner[y] != Some(o)
                            && x == y)) by {
                            lemma_seen_step(m, s, o as int, c as int, q as int, y);
                        }
                    }
                    if owned != Some(o) {
                        match best {
                            Some(b) => {
                                let new: i128 = wide_magnitude(posterior[x]);
                                let old_best: i128 = wide_magnitude(posterior[b]);
                                if new < old_best || (new == old_best && x < b) {
                                    best = Some(x);
                                }
                            },
                            None => {
                                best = Some(x);
                            },
                        }
                    }
                    q += 1;
                }
                proof {
                    assert forall|y: int| 0 <= y < m.cols implies (#[trigger] seen(
                        m,
                        s,
                        o as int,
                        c + 1,
                        0,
                        y,
                    ) <==> seen(m, s, o as int, c as int, row.len() as int, y)) by {
                        lemma_seen_next(m, s, o as int, c as int, y);
                    }
                }
            } else {
                proof {
                    assert forall|y: int| 0 <= y < m.cols implies (#[trigger] seen(
                        m,
                        s,
                        o as int,
                        c + 1,
                        0,
                        y,
                    ) <==> seen(m, s, o as int, c as int, 0, y)) by {
                        lemma_seen_next(m, s, o as int, c as int, y);
                    }
                }
            }
            c += 1;
        }
        proof {
            assert forall|y: int| 0 <= y < m.cols implies (#[trigger] seen(
                m,
                s,
                o as int,
                m.rows as int,
                0,
                y,
            ) <==> candidate(m, s, o as int, y)) by {
                lemma_seen_all(m, s, o as int, y);
            }
            match best {
                Some(x) => {
                    assert(seen(m, s, o as int, m.rows as int, 0, x as int));
                    assert forall|y: int| #[trigger] candidate(
                        m,
                        s,
                        o as int,
                        y,
                    ) implies weakest_of(posterior@, x as int, y) by {
                        assert(seen(m, s, o as int, m.rows as int, 0, y));
                    }
                },
                None => {
                    assert forall|x: int| !#[trigger] candidate(m, s, o as int, x) by {
                        if candidate(m, s, o as int, x) {
                            assert(seen(m, s, o as int, m.rows as int, 0, x));
                        }
                    }
                },
            }
        }
        best
    }

    /// Looks at cluster `o` for growth. Returns whether it took a bit.
    fn grow_cluster(&mut self, check_matrix: &SparseBitMatrix, posterior: &Vec<i64>, o: usize) -> (r:
        bool)
        requires
            check_matrix@.wf(),
            old(self).wf(check_matrix@),
            posterior.len() == check_matrix@.cols,
            o < old(self)@.owner.len(),
        ensures
            final(self).wf(check_matrix@),
            final(self)@ == grow_step(check_matrix@, old(self)@, posterior@, o as int),
            r == grows(check_matrix@, old(self)@, posterior@, o as int),
    {
        let ghost m = check_matrix@;
        let ghost s = self@;
        let root: usize = find(&mut self.parent, o);
        assert(self@ =~= s);
        if root != o || !self.active[o] || self.valid[o] {
            return false;
        }
        match self.best(check_matrix, posterior, o) {
            Some(x) => {
                proof {
                    assert(best_candidate(m, s, posterior@, o as int, x as int));
                    let y = choose|y: int| best_candidate(m, s, posterior@, o as int, y);
                    assert(best_candidate(m, s, posterior@, o as int, y));
                    assert(x == y);
                }
                self.grow(check_matrix, o, x);
                true
            },
            None => {
                self.active.set(o, false);
                assert(self@ =~= (LsdModel { active: s.active.update(o as int, false), ..s }));
                proof {
                    assert forall|k: int| 0 <= k < s.owner.len() && s.owner[k] != k implies !(
                    #[trigger] self@.active[k]) && self@.valid[k] by {
                        assert(!s.active[k]);
                    }
                }
                false
            },
        }
    }
}

/// A cluster owns every check next to its bits.
pub open spec fn closed(m: MatrixModel, s: LsdModel) -> bool {
    forall|c: int, x: int|
        0 <= c < m.rows && 0 <= x < m.cols && #[trigger] m.entry(c, x) && s.bit_owner[x] is Some
            ==> s.check_owner[c] == s.bit_owner[x]
}

/// Only bits of clusters are corrected.
pub open spec fn supported(m: MatrixModel, s: LsdModel) -> bool {
    forall|x: int| 0 <= x < m.cols && #[trigger] s.correction[x] == 1 ==> s.bit_owner[x] is Some
}

/// Equal bits in the places of a check give equal parities.
proof fn lemma_check_parity_same(m: MatrixModel, y: Seq<Bit>, z: Seq<Bit>, c: int)
    requires
        m.wf(),
        0 <= c < m.rows,
        y.len() == m.cols,
        z.len() == m.cols,
        is_bits(y),
        is_bits(z),
        forall|x: int| 0 <= x < m.cols && #[trigger] m.entry(c, x) ==> y[x] == z[x],
    ensures
        check_parity(m, y, c) == check_parity(m, z, c),
{
    lemma_check_parity_dense(m, y, c);
    lemma_check_parity_dense(m, z, c);
    lemma_parity_agree(dense_row(m, c), y, z, m.cols as int);
}

proof fn lemma_parity_agree(a: Seq<Bit>, y: Seq<Bit>, z: Seq<Bit>, n: int)
    requires
        forall|x: int| 0 <= x < n && #[trigger] a[x] == 1 ==> y[x] == z[x],
    ensures
        parity(a, y, n) == parity(a, z, n),
    decreases n,
{
    if n > 0 {
        lemma_parity_agree(a, y, z, n - 1);
        assert(a[n - 1] == 1 ==> y[n - 1] == z[n - 1]);
    }
}

/// Row `c` restricted to the bits of cluster `o`.
spec fn local_row(m: MatrixModel, s: LsdModel, o: int, c: int) -> Seq<Bit> {
    Seq::new(
        m.cols,
        |x: int|
            if m.entry(c, x) && s.bit_owner[x] == Some(o as usize) {
                1 as Bit
            } else {
                0 as Bit
            },
    )
}

/// What solving cluster `o` does.
spec fn solved_at(m: MatrixModel, syndrome: Seq<Bit>, s: LsdModel, t: LsdModel, o: int) -> bool {
    let solve = due(s, o) && solvable(m, syndrome, s, o);
    &&& t.owner == s.owner
    &&& t.bit_owner == s.bit_owner
    &&& t.check_owner == s.check_owner
    &&& t.active == (if solve {
        s.active.update(o, false)
    } else {
        s.active
    })
    &&& t.valid == (if solve {
        s.valid.update(o, true)
    } else {
        s.valid
    })
    &&& t.correction.len() == s.correction.len()
    &&& is_bits(t.correction)
    &&& solve ==> explains(m, syndrome, s, o, t.correction)
    &&& forall|x: int|
        0 <= x < m.cols && !(solve && s.bit_owner[x] == Some(o as usize)) ==> #[trigger] t.correction[x]
            == s.correction[x]
}

/// Marking a cluster as solved keeps the parts of a search fitting.
proof fn lemma_solved_wf(m: MatrixModel, s: LsdModel, t: LsdModel, o: int)
    requires
        s.wf(m),
        0 <= o < s.owner.len(),
        s.owner[o] == o,
        t.owner == s.owner,
        t.bit_owner == s.bit_owner,
        t.check_owner == s.check_owner,
        t.active == s.active.update(o, false),
        t.valid == s.valid.update(o, true),
        t.correction.len() == m.cols,
        is_bits(t.correction),
    ensures
        t.wf(m),
{
    assert forall|k: int|
        0 <= k < t.owner.len() && t.owner[k] != k implies !(#[trigger] t.active[k])
        && t.valid[k] by {
        assert(!s.active[k]);
    }
}

/// Solving one more cluster.
proof fn lemma_solved_next(
    m: MatrixModel,
    syndrome: Seq<Bit>,
    s: LsdModel,
    t: LsdModel,
    u: LsdModel,
    o: int,
)
    requires
        m.wf(),
        s.wf(m),
        t.wf(m),
        closed(m, s),
        supported(m, t),
        0 <= o < s.owner.len(),
        solved_below(m, syndrome, s, t, o),
        solved_at(m, syndrome, t, u, o),
    ensures
        solved_below(m, syndrome, s, u, o + 1),
{
    assert(t.valid[o] == s.valid[o] && t.active[o] == s.active[o]);
    assert(due(t, o) == due(s, o));
    assert(solvable(m, syndrome, t, o) == solvable(m, syndrome, s, o)) by {
        if solvable(m, syndrome, t, o) {
            let y = choose|y: Seq<Bit>| explains_locally(m, syndrome, t, o, y);
            assert(explains_locally(m, syndrome, s, o, y));
        }
        if solvable(m, syndrome, s, o) {
            let y = choose|y: Seq<Bit>| explains_locally(m, syndrome, s, o, y);
            assert(explains_locally(m, syndrome, t, o, y));
        }
    }
    assert forall|k: int|
        #![trigger u.valid[k]]
        #![trigger u.active[k]]
        0 <= k < s.owner.len() implies {
        let solve = k < o + 1 && due(s, k) && solvable(m, syndrome, s, k);
        &&& u.valid[k] == (s.valid[k] || solve)
        &&& u.active[k] == (s.active[k] && !solve)
        &&& solve ==> explains(m, syndrome, s, k, u.correction)
    } by {
        assert(t.valid[k] == (s.valid[k] || (k < o && due(s, k) && solvable(m, syndrome, s, k))));
        if k < o && due(s, k) && solvable(m, syndrome, s, k) {
            assert(explains(m, syndrome, s, k, t.correction));
            assert forall|c: int|
                0 <= c < m.rows && #[trigger] s.check_owner[c] == Some(k as usize) implies
                check_parity(
                m,
                u.correction,
                c,
            ) == (syndrome[c] == 1) by {
                assert forall|x: int|
                    0 <= x < m.cols && #[trigger] m.entry(c, x) implies u.correction[x]
                    == t.correction[x] by {
                    if s.bit_owner[x] is Some {
                        assert(s.bit_owner[x] == Some(k as usize));
                    }
                    assert(u.correction[x] == t.correction[x]);
                }
                lemma_check_parity_same(m, u.correction, t.correction, c);
            }
        }
        if k == o && due(s, o) && solvable(m, syndrome, s, o) {
            assert(explains(m, syndrome, t, o, u.correction));
        }
    }
    assert forall|x: int| 0 <= x < m.cols implies {
        ||| #[trigger] u.correction[x] == s.correction[x]
        ||| (u.correction[x] <= 1 && exists|k: int|
            0 <= k < o + 1 && s.bit_owner[x] == Some(k as usize) && #[trigger] due(s, k)
                && solvable(m, syndrome, s, k))
    } by {
        assert(u.correction[x] <= 1);
        if u.correction[x] != t.correction[x] {
            assert(due(s, o) && solvable(m, syndrome, s, o));
        } else if t.correction[x] != s.correction[x] {
            let k = choose|k: int|
                0 <= k < o && s.bit_owner[x] == Some(k as usize) && #[trigger] due(s, k)
                    && solvable(m, syndrome, s, k);
            assert(due(s, k));
        }
    }
}

impl LsdSearch {
    /// The checks of cluster `o` restricted to its bits, with their syndrome.
    fn local_system(
        &self,
        check_matrix: &SparseBitMatrix,
        syndrome: &Vec<Bit>,
        o: usize,
    ) -> (r: (Vec<Vec<Bit>>, Vec<Bit>, Ghost<Seq<usize>>))
        requires
            check_matrix@.wf(),
            self.wf(check_matrix@),
            syndrome.len() == check_matrix@.rows,
        ensures
            r.0.len() == r.1.len() == r.2@.len(),
            is_table(r.0@, check_matrix@.cols),
            is_bits(r.1@),
            forall|i: int|
                0 <= i < r.0.len() ==> {
                    let c = #[trigger] r.2@[i] as int;
                    &&& 0 <= c < check_matrix@.rows
                    &&& self@.check_owner[c] == Some(o)
                    &&& r.0[i]@ == local_row(check_matrix@, self@, o as int, c)
                    &&& (r.1[i] == 1) == (syndrome[c] == 1)
                },
            forall|c: int|
                0 <= c < check_matrix@.rows && #[trigger] self@.check_owner[c] == Some(o) ==> exists|i: int|
                    0 <= i < r.0.len() && #[trigger] r.2@[i] == c,
    {
        let ghost m = check_matrix@;
        let ghost s = self@;
        let mut rows: Vec<Vec<Bit>> = Vec::new();
        let mut target: Vec<Bit> = Vec::new();
        let ghost mut which: Seq<usize> = Seq::empty();
        let cols: usize = check_matrix.cols;
        let mut c: usize = 0;
        while c < check_matrix.rows
            invariant
                m == check_matrix@,
                s == self@,
                m.wf(),
                self.wf(m),
                syndrome.len() == m.rows,
                cols == m.cols,
                c <= m.rows,
                rows.len() == target.len() == which.len(),
                is_table(rows@, m.cols),
                is_bits(target@),
                forall|i: int|
                    0 <= i < rows.len() ==> {
                        let d = #[trigger] which[i] as int;
                        &&& 0 <= d < c
                        &&& s.check_owner[d] == Some(o)
                        &&& rows[i]@ == local_row(m, s, o as int, d)
                        &&& (target[i] == 1) == (syndrome[d] == 1)
                    },
                forall|d: int|
                    0 <= d < c && #[trigger] s.check_owner[d] == Some(o) ==> exists|i: int|
                        0 <= i < rows.len() && #[trigger] which[i] == d,
            decreases check_matrix.rows - c,
        {
            let here: Option<usize> = self.check_owner[c];
            let ghost before = which;
            if here == Some(o) {
                let entries: Vec<usize> = check_matrix.row_indices(c);
                proof {
                    lemma_row_sorted(m, c as int);
                }
                let mut row: Vec<Bit> = vec![0; cols];
                let mut q: usize = 0;
                while q < entries.len()
                    invariant
                        m == check_matrix@,
                        s == self@,
                        self.wf(m),
                        cols == m.cols,
                        c < m.rows,
                        entries@ == m.row(c as int),
                        forall|a: int| 0 <= a < entries.len() ==> entries[a] < m.cols,
                        q <= entries.len(),
                        row.len() == cols,
                        forall|x: int|
                            0 <= x < cols ==> #[trigger] row@[x] == (if s.bit_owner[x] == Some(o)
                                && exists|k: int| 0 <= k < q && #[trigger] m.row(c as int)[k] == x {
                                1 as Bit
                            } else {
                                0 as Bit
                            }),
                    decreases entries.len() - q,
                {
                    let x: usize = entries[q];
                    let owned: Option<usize> = self.bit_owner[x];
                    let ghost prev = row@;
                    if owned == Some(o) {
                        row.set(x, 1);
                    }
                    proof {
                        assert forall|y: int|
                            0 <= y < cols implies #[trigger] row@[y] == (if s.bit_owner[y]
                            == Some(o) && exists|k: int|
                            0 <= k < q + 1 && #[trigger] m.row(c as int)[k] == y {
                            1 as Bit
                        } else {
                            0 as Bit
                        }) by {
                            assert(m.row(c as int)[q as int] == x);
                            assert(prev[y] == prev[y]);
                            if exists|k: int| 0 <= k < q && #[trigger] m.row(c as int)[k] == y {
                                let k = choose|k: int| 0 <= k < q && #[trigger] m.row(c as int)[k] == y;
                                assert(m.row(c as int)[k] == y);
                            }
                        }
                    }
                    q += 1;
                }
                assert(row@ =~= local_row(m, s, o as int, c as int));
                rows.push(row);
                target.push(if syndrome[c] == 1 { 1 } else { 0 });
                proof {
                    which = which.push(c);
                }
            }
            proof {
                assert forall|d: int|
                    0 <= d < c + 1 && #[trigger] s.check_owner[d] == Some(o) implies exists|i: int|
                    0 <= i < rows.len() && #[trigger] which[i] == d by {
                    if d < c {
                        let i = choose|i: int| 0 <= i < before.len() && #[trigger] before[i] == d;
                        assert(which[i] == d);
                    } else {
                        assert(which[which.len() - 1] == d);
                    }
                }
            }
            c += 1;
        }
        proof {
            assert forall|d: int|
                0 <= d < m.rows && #[trigger] s.check_owner[d] == Some(o) implies exists|i: int|
                0 <= i < rows.len() && #[trigger] which[i] == d by {
                let i = choose|i: int| 0 <= i < rows.len() && #[trigger] which[i] == d;
                assert(which[i] == d);
            }
        }
        (rows, target, Ghost(which))
    }

    /// Solves cluster `o` if it is due and its bits can explain its checks.
    fn solve_cluster(&mut self, check_matrix: &SparseBitMatrix, syndrome: &Vec<Bit>, o: usize)
        requires
            check_matrix@.wf(),
            old(self).wf(check_matrix@),
            closed(check_matrix@, old(self)@),
            supported(check_matrix@, old(self)@),
            syndrome.len() == check_matrix@.rows,
            o < old(self)@.owner.len(),
        ensures
            final(self).wf(check_matrix@),
            supported(check_matrix@, final(self)@),
            solved_at(check_matrix@, syndrome@, old(self)@, final(self)@, o as int),
    {
        let ghost m = check_matrix@;
        let ghost s = self@;
        let ghost oi = o as int;
        let root: usize = find(&mut self.parent, o);
        assert(self@ =~= s);
        if root != o || !self.active[o] || self.valid[o] {
            return ;
        }
        let (rows, target, Ghost(which)) = self.local_system(check_matrix, syndrome, o);
        let cols: usize = check_matrix.cols;
        proof {
            if rows.len() > 0 {
                assert(rows@[0].len() == m.cols);
            }
        }
        let solution: Option<Vec<Bit>> = solve_system_rows(&rows, &target);
        proof {
            assert forall|y: Seq<Bit>|
                explains_locally(m, syndrome@, s, oi, y) implies #[trigger] solves(
                rows@,
                target@,
                y,
            ) by {
                assert forall|i: int| 0 <= i < rows@.len() implies parity(
                    #[trigger] rows@[i]@,
                    y,
                    rows@[i].len() as int,
                ) == (target@[i] == 1) by {
                    let c = which[i] as int;
                    assert(rows@[i].len() == m.cols);
                    assert(s.check_owner[c] == Some(o));
                    lemma_check_parity_dense(m, y, c);
                    lemma_parity_support(local_row(m, s, oi, c), dense_row(m, c), y, m.cols as int);
                }
            }
        }
        match solution {
            Some(x) => {
                let mut b: usize = 0;
                while b < cols
                    invariant
                        m == check_matrix@,
                        m.wf(),
                        s.wf(m),
                        cols == m.cols,
                        b <= cols,
                        rows.len() > 0 ==> x.len() == cols,
                        rows.len() == 0 ==> x.len() == 0,
                        is_bits(x@),
                        forest(self.parent@),
                        self.parent.len() == s.owner.len(),
                        self@ == (LsdModel { correction: self.correction@, ..s }),
                        self.correction.len() == cols,
                        is_bits(self.correction@),
                        forall|y: int|
                            0 <= y < b && s.bit_owner[y] == Some(o) ==> #[trigger] self.correction@[y] == (if rows.len()
                                > 0 {
                                x@[y]
                            } else {
                                0
                            }),
                        forall|y: int|
                            0 <= y < cols && (y >= b || s.bit_owner[y] != Some(o))
                                ==> #[trigger] self.correction@[y] == s.correction[y],
                    decreases cols - b,
                {
                    let owned: Option<usize> = self.bit_owner[b];
                    if owned == Some(o) {
                        let bit: Bit = if b < x.len() {
                            x[b]
                        } else {
                            0
                        };
                        self.correction.set(b, bit);
                    }
                    b += 1;
                }
                self.valid.set(o, true);
                self.active.set(o, false);
                proof {
                    let z = self.correction@;
                    let t = self@;
                    assert forall|i: int|
                        0 <= i < rows.len() implies check_parity(m, z, #[trigger] which[i] as int)
                        == (syndrome[which[i] as int] == 1) by {
                        let c = which[i] as int;
                        let h = local_row(m, s, oi, c);
                        assert(rows@[i].len() == m.cols);
                        assert(parity(rows@[i]@, x@, rows@[i].len() as int) == (target@[i] == 1));
                        lemma_check_parity_dense(m, z, c);
                        // Bits of other clusters are not in this check.
                        assert forall|y: int|
                            0 <= y < m.cols && #[trigger] z[y] == 1 implies (h[y] == 1) == (
                        dense_row(m, c)[y] == 1) by {
                            if m.entry(c, y) {
                                assert(s.bit_owner[y] is Some) by {
                                    if s.bit_owner[y] != Some(o) {
                                        assert(z[y] == s.correction[y]);
                                    }
                                }
                                assert(s.check_owner[c] == s.bit_owner[y]);
                            }
                        }
                        lemma_parity_support(h, dense_row(m, c), z, m.cols as int);
                        assert forall|y: int|
                            0 <= y < m.cols && #[trigger] h[y] == 1 implies z[y] == x@[y] by {
                            assert(z[y] == x@[y]);
                        }
                        lemma_parity_agree(h, z, x@, m.cols as int);
                    }
                    assert(explains(m, syndrome@, s, oi, z)) by {
                        assert forall|c: int|
                            0 <= c < m.rows && #[trigger] s.check_owner[c] == Some(o) implies
                            check_parity(
                            m,
                            z,
                            c,
                        ) == (syndrome[c] == 1) by {
                            let i = choose|i: int| 0 <= i < rows.len() && #[trigger] which[i] == c;
                            assert(which[i] == c);
                        }
                    }
                    // The bits of the cluster alone explain its checks too.
                    let w = Seq::new(
                        m.cols,
                        |y: int| if s.bit_owner[y] == Some(o) { z[y] } else { 0 as Bit },
                    );
                    assert(explains_locally(m, syndrome@, s, oi, w)) by {
                        assert forall|c: int|
                            0 <= c < m.rows && #[trigger] s.check_owner[c] == Some(o) implies
                            check_parity(
                            m,
                            w,
                            c,
                        ) == (syndrome[c] == 1) by {
                            assert forall|y: int|
                                0 <= y < m.cols && #[trigger] m.entry(c, y) implies w[y]
                                == z[y] by {
                                if s.bit_owner[y] != Some(o) {
                                    assert(s.bit_owner[y] is None);
                                    assert(z[y] == s.correction[y]);
                                    assert(z[y] == 0 || z[y] == 1);
                                    assert(s.correction[y] == 1 ==> s.bit_owner[y] is Some);
                                }
                            }
                            lemma_check_parity_same(m, w, z, c);
                        }
                    }
                    assert(solvable(m, syndrome@, s, oi));
                    assert(t.valid =~= s.valid.update(oi, true));
                    assert(t.active =~= s.active.update(oi, false));
                    assert forall|y: int|
                        0 <= y < m.cols && #[trigger] t.correction[y] == 1 implies
                        t.bit_owner[y] is Some by {
                        if s.bit_owner[y] != Some(o) {
                            assert(t.correction[y] == s.correction[y]);
                        }
                    }
                    assert(solved_at(m, syndrome@, s, t, oi));
                    assert(t.owner == s.owner);
                    assert(is_bits(t.correction));
                    lemma_solved_wf(m, s, t, oi);
                }
            },
            None => {
                proof {
                    if solvable(m, syndrome@, s, oi) {
                        let y = choose|y: Seq<Bit>| explains_locally(m, syndrome@, s, oi, y);
                        assert(solves(rows@, target@, y));
                        assert(rows.len() > 0);
                    }
                }
            },
        }
    }
}

/// What a search found.
#[derive(Clone, Debug)]
pub struct LsdResult {
    /// The number of bits of each cluster.
    pub cluster_sizes: Vec<usize>,
    /// The sum of the magnitudes of the priors of each cluster.
    pub cluster_llrs: Vec<i128>,
    /// The cluster of each bit, counted from one; zero if it is in none.
    pub cluster_ids: Vec<usize>,
    /// The bits that the solved clusters correct.
    pub lsd_correction: Option<Vec<Bit>>,
}

/// The bits below `n` of cluster `o`.
pub open spec fn size_below(bit_owner: Seq<Option<usize>>, o: int, n: int) -> nat
    decreases n,
{
    if n <= 0 {
        0
    } else {
        size_below(bit_owner, o, n - 1) + (if bit_owner[n - 1] == Some(o as usize) {
            1nat
        } else {
            0nat
        })
    }
}

/// The magnitudes of the priors of the bits below `n` of cluster `o`.
pub open spec fn llr_below(
    prior: Seq<i64>,
    bit_owner: Seq<Option<usize>>,
    o: int,
    n: int,
) -> int
    decreases n,
{
    if n <= 0 {
        0
    } else {
        llr_below(prior, bit_owner, o, n - 1) + (if bit_owner[n - 1] == Some(o as usize) {
            abs(prior[n - 1] as int)
        } else {
            0
        })
    }
}

/// Cluster `o` has not been merged and has bits.
pub open spec fn is_cluster(s: LsdModel, o: int) -> bool {
    s.owner[o] == o && size_below(s.bit_owner, o, s.bit_owner.len() as int) > 0
}

/// The clusters with bits below `n`.
pub open spec fn clusters_below(s: LsdModel, n: int) -> nat
    decreases n,
{
    if n <= 0 {
        0
    } else {
        clusters_below(s, n - 1) + (if is_cluster(s, n - 1) {
            1nat
        } else {
            0nat
        })
    }
}

/// `r` reports the state `s`.
pub open spec fn reports(m: MatrixModel, prior: Seq<i64>, s: LsdModel, r: LsdResult) -> bool {
    let k = s.owner.len() as int;
    &&& r.cluster_sizes.len() == clusters_below(s, k)
    &&& r.cluster_llrs.len() == clusters_below(s, k)
    &&& forall|o: int|
        0 <= o < k && #[trigger] is_cluster(s, o) ==> {
            let i = clusters_below(s, o) as int;
            &&& r.cluster_sizes[i] == size_below(s.bit_owner, o, m.cols as int)
            &&& r.cluster_llrs[i] == llr_below(prior, s.bit_owner, o, m.cols as int)
        }
    &&& r.cluster_ids.len() == m.cols
    &&& forall|x: int|
        0 <= x < m.cols ==> #[trigger] r.cluster_ids[x] == (match s.bit_owner[x] {
            Some(o) => clusters_below(s, o as int) + 1,
            None => 0,
        })
    &&& r.lsd_correction matches Some(v) && v@ == s.correction
}

proof fn lemma_clusters_bound(s: LsdModel, a: int, b: int)
    requires
        0 <= a <= b,
    ensures
        clusters_below(s, a) <= clusters_below(s, b) <= clusters_below(s, a) + b - a,
    decreases b - a,
{
    if a < b {
        lemma_clusters_bound(s, a, b - 1);
    }
}

proof fn lemma_size_positive(bit_owner: Seq<Option<usize>>, o: int, x: int, n: int)
    requires
        0 <= x < n,
        bit_owner[x] == Some(o as usize),
    ensures
        size_below(bit_owner, o, n) > 0,
    decreases n,
{
    if x < n - 1 {
        lemma_size_positive(bit_owner, o, x, n - 1);
    }
}

proof fn lemma_llr_bound(prior: Seq<i64>, bit_owner: Seq<Option<usize>>, o: int, n: int)
    requires
        0 <= n,
    ensures
        0 <= llr_below(prior, bit_owner, o, n) <= n * 0x8000_0000_0000_0000,
    decreases n,
{
    if n > 0 {
        lemma_llr_bound(prior, bit_owner, o, n - 1);
    }
}

/// Growth keeps clusters closed and corrections in clusters.
proof fn lemma_grow_keeps(m: MatrixModel, s: LsdModel, posterior: Seq<i64>, o: int)
    requires
        m.wf(),
        s.wf(m),
        closed(m, s),
        supported(m, s),
        0 <= o < s.owner.len(),
    ensures
        grow_step(m, s, posterior, o).wf(m),
        closed(m, grow_step(m, s, posterior, o)),
        supported(m, grow_step(m, s, posterior, o)),
        grow_step(m, s, posterior, o).owner.len() == s.owner.len(),
{
    let t = grow_step(m, s, posterior, o);
    if grows(m, s, posterior, o) {
        let x = choose|x: int| best_candidate(m, s, posterior, o, x);
        assert(best_candidate(m, s, posterior, o, x));
        lemma_grown_wf(m, s, o, x);
        assert forall|c: int, y: int|
            0 <= c < m.rows && 0 <= y < m.cols && #[trigger] m.entry(c, y) && t.bit_owner[y] is Some implies
            t.check_owner[c]
            == t.bit_owner[y] by {
            if y != x {
                let k = s.bit_owner[y]->0;
                assert(s.bit_owner[y] is Some);
                assert(s.check_owner[c] == s.bit_owner[y]);
                if m.entry(c, x) {
                    assert(absorbed(m, s, x, k as int));
                }
            }
        }
        assert forall|y: int|
            0 <= y < m.cols && #[trigger] t.correction[y] == 1 implies t.bit_owner[y] is Some by {
            assert(s.correction[y] == 1);
        }
    } else if due(s, o) {
        assert forall|k: int|
            0 <= k < s.owner.len() && s.owner[k] != k implies !(#[trigger] t.active[k])
            && t.valid[k] by {
            assert(!s.active[k]);
        }
    }
}

impl LsdSearch {
    /// One cluster for each unexplained check.
    fn seed(check_matrix: &SparseBitMatrix, syndrome: &Vec<Bit>) -> (r: Self)
        requires
            check_matrix@.wf(),
            syndrome.len() == check_matrix@.rows,
        ensures
            r.wf(check_matrix@),
            r@ == seeded(check_matrix@, syndrome@),
            closed(check_matrix@, r@),
            supported(check_matrix@, r@),
    {
        let ghost m = check_matrix@;
        let mut check_owner: Vec<Option<usize>> = Vec::new();
        let mut count: usize = 0;
        let mut c: usize = 0;
        while c < check_matrix.rows
            invariant
                m == check_matrix@,
                syndrome.len() == m.rows,
                c <= m.rows,
                count <= c,
                count == seeds_below(syndrome@, c as int),
                check_owner.len() == c,
                forall|d: int|
                    0 <= d < c ==> #[trigger] check_owner@[d] == (if syndrome[d] == 1 {
                        Some(seeds_below(syndrome@, d) as usize)
                    } else {
                        None
                    }),
                forall|d: int|
                    0 <= d < c ==> (#[trigger] check_owner@[d] matches Some(k) ==> k < count),
            decreases check_matrix.rows - c,
        {
            if syndrome[c] == 1 {
                check_owner.push(Some(count));
                count += 1;
            } else {
                check_owner.push(None);
            }
            c += 1;
        }
        let mut bit_owner: Vec<Option<usize>> = Vec::new();
        let mut x: usize = 0;
        while x < check_matrix.cols
            invariant
                m == check_matrix@,
                x <= m.cols,
                bit_owner.len() == x,
                forall|y: int| 0 <= y < x ==> #[trigger] bit_owner@[y] is None,
            decreases check_matrix.cols - x,
        {
            bit_owner.push(None);
            x += 1;
        }
        let parent: Vec<usize> = singletons(count);
        let r = LsdSearch {
            parent,
            active: vec![true; count],
            valid: vec![false; count],
            bit_owner,
            check_owner,
            correction: vec![0; check_matrix.cols],
        };
        assert(r@ =~= seeded(m, syndrome@));
        r
    }

    /// The report of a finished search.
    fn report(&mut self, check_matrix: &SparseBitMatrix, prior: &Vec<i64>) -> (r: LsdResult)
        requires
            check_matrix@.wf(),
            old(self).wf(check_matrix@),
            prior.len() == check_matrix@.cols,
            old(self)@.owner.len() < usize::MAX,
        ensures
            reports(check_matrix@, prior@, old(self)@, r),
    {
        let ghost m = check_matrix@;
        let ghost s = self@;
        let n: usize = self.parent.len();
        let cols: usize = check_matrix.cols;
        let mut cluster_sizes: Vec<usize> = Vec::new();
        let mut cluster_llrs: Vec<i128> = Vec::new();
        let mut cluster_ids: Vec<usize> = vec![0; cols];
        let mut output_id: usize = 1;
        let mut o: usize = 0;
        while o < n
            invariant
                m == check_matrix@,
                m.wf(),
                self.wf(m),
                self@ == s,
                n == s.owner.len(),
                n < usize::MAX,
                cols == m.cols,
                prior.len() == cols,
                o <= n,
                output_id == clusters_below(s, o as int) + 1,
                output_id <= o + 1,
                cluster_sizes.len() == clusters_below(s, o as int),
                cluster_llrs.len() == clusters_below(s, o as int),
                forall|k: int|
                    0 <= k < o && #[trigger] is_cluster(s, k) ==> {
                        let i = clusters_below(s, k) as int;
                        &&& cluster_sizes[i] == size_below(s.bit_owner, k, m.cols as int)
                        &&& cluster_llrs[i] == llr_below(prior@, s.bit_owner, k, m.cols as int)
                    },
                cluster_ids.len() == cols,
                forall|x: int|
                    0 <= x < cols ==> #[trigger] cluster_ids@[x] == (match s.bit_owner[x] {
                        Some(k) => if k < o {
                            clusters_below(s, k as int) + 1
                        } else {
                            0
                        },
                        None => 0,
                    }),
            decreases n - o,
        {
            let root: usize = find(&mut self.parent, o);
            assert(self@ =~= s);
            let ghost ids0 = cluster_ids@;
            let mut size: usize = 0;
            let mut llr: i128 = 0;
            let mut x: usize = 0;
            while x < cols
                invariant
                    m == check_matrix@,
                    self.wf(m),
                    self@ == s,
                    cols == m.cols,
                    prior.len() == cols,
                    x <= cols,
                    o < n,
                    n == s.owner.len(),
                    size <= x,
                    size == size_below(s.bit_owner, o as int, x as int),
                    llr == llr_below(prior@, s.bit_owner, o as int, x as int),
                    cluster_ids.len() == cols,
                    ids0.len() == cols,
                    forall|y: int|
                        0 <= y < cols ==> #[trigger] cluster_ids@[y] == (if y < x && s.bit_owner[y]
                            == Some(o) {
                            output_id
                        } else {
                            ids0[y]
                        }),
                decreases cols - x,
            {
                let owned: Option<usize> = self.bit_owner[x];
                if owned == Some(o) {
                    proof {
                        lemma_llr_bound(prior@, s.bit_owner, o as int, x as int);
                        assert(x * 0x8000_0000_0000_0000 <= 0xffff_ffff_ffff_ffff
                            * 0x8000_0000_0000_0000 - 0x8000_0000_0000_0000) by (nonlinear_arith)
                            requires
                                x < 0xffff_ffff_ffff_ffff,
                        ;
                    }
                    let p: i128 = prior[x] as i128;
                    size += 1;
                    llr = llr + (if p < 0 {
                        -p
                    } else {
                        p
                    });
                    cluster_ids.set(x, output_id);
                }
                x += 1;
            }
            if size > 0 {
                proof {
                    // A cluster with bits has not been merged.
                    assert(s.owner[o as int] == o) by {
                        if s.owner[o as int] != o {
                            lemma_no_bits(m, s, o as int, cols as int);
                        }
                    }
                    assert(is_cluster(s, o as int));
                    lemma_clusters_bound(s, o as int, n as int);
                }
                let ghost sizes0 = cluster_sizes@;
                let ghost llrs0 = cluster_llrs@;
                cluster_sizes.push(size);
                cluster_llrs.push(llr);
                output_id += 1;
                proof {
                    assert forall|k: int| 0 <= k < o + 1 && #[trigger] is_cluster(s, k) implies {
                        let i = clusters_below(s, k) as int;
                        &&& cluster_sizes[i] == size_below(s.bit_owner, k, m.cols as int)
                        &&& cluster_llrs[i] == llr_below(prior@, s.bit_owner, k, m.cols as int)
                    } by {
                        if k < o {
                            lemma_clusters_bound(s, k + 1, o as int);
                            let i = clusters_below(s, k) as int;
                            assert(sizes0[i] == cluster_sizes[i]);
                            assert(llrs0[i] == cluster_llrs[i]);
                        }
                    }
                }
            } else {
                assert(!is_cluster(s, o as int));
            }
            proof {
                assert forall|y: int|
                    0 <= y < cols implies #[trigger] cluster_ids@[y] == (match s.bit_owner[y] {
                    Some(k) => if k < o + 1 {
                        clusters_below(s, k as int) + 1
                    } else {
                        0
                    },
                    None => 0,
                }) by {
                    assert(ids0[y] == (match s.bit_owner[y] {
                        Some(k) => if k < o {
                            clusters_below(s, k as int) + 1
                        } else {
                            0
                        },
                        None => 0,
                    }));
                }
            }
            o += 1;
        }
        let r = LsdResult {
            cluster_sizes,
            cluster_llrs,
            cluster_ids,
            lsd_correction: Some(self.correction.clone()),
        };
        proof {
            assert forall|x: int|
                0 <= x < m.cols implies #[trigger] r.cluster_ids[x] == (match s.bit_owner[x] {
                Some(o) => clusters_below(s, o as int) + 1,
                None => 0,
            }) by {
                assert(s.bit_owner[x] matches Some(k) ==> k < s.owner.len());
            }
        }
        r
    }
}

proof fn lemma_no_bits(m: MatrixModel, s: LsdModel, o: int, n: int)
    requires
        s.wf(m),
        0 <= o < s.owner.len(),
        s.owner[o] != o,
        0 <= n <= m.cols,
        s.owner.len() <= usize::MAX,
    ensures
        size_below(s.bit_owner, o, n) == 0,
    decreases n,
{
    if n > 0 {
        lemma_no_bits(m, s, o, n - 1);
        assert(s.bit_owner[n - 1] matches Some(k) ==> s.owner[k as int] == k);
    }
}

/// Explains a syndrome by clusters that grow from its unexplained checks towards the
/// weakest bits, those whose ratios are least in magnitude. The clusters are weighed by the
/// same ratios. Order and method select nothing yet: every search takes one bit at a time.
pub fn run_lsd(
    check_matrix: &SparseBitMatrix,
    syndrome: &Vec<Bit>,
    llrs: &Vec<i64>,
    lsd_order: usize,
    lsd_method: &str,
) -> (r: LsdResult)
    requires
        check_matrix@.wf(),
        syndrome.len() == check_matrix@.rows,
        llrs.len() == check_matrix@.cols,
    ensures
        exists|trace: Seq<LsdModel>|
            {
                &&& #[trigger] lsd_trace(check_matrix@, syndrome@, llrs@, trace)
                &&& reports(check_matrix@, llrs@, trace.last(), r)
            },
{
    run_lsd_with_priors(check_matrix, syndrome, llrs, llrs, lsd_order, lsd_method)
}

/// Explains a syndrome by clusters that grow from its unexplained checks towards the
/// weakest bits, those whose posteriors are least in magnitude. The clusters are weighed by
/// the priors.
pub fn run_lsd_with_priors(
    check_matrix: &SparseBitMatrix,
    syndrome: &Vec<Bit>,
    posterior_llrs: &Vec<i64>,
    prior_llrs: &Vec<i64>,
    lsd_order: usize,
    lsd_method: &str,
) -> (r: LsdResult)
    requires
        check_matrix@.wf(),
        syndrome.len() == check_matrix@.rows,
        posterior_llrs.len() == check_matrix@.cols,
        prior_llrs.len() == check_matrix@.cols,
    ensures
        exists|trace: Seq<LsdModel>|
            {
                &&& #[trigger] lsd_trace(check_matrix@, syndrome@, posterior_llrs@, trace)
                &&& reports(check_matrix@, prior_llrs@, trace.last(), r)
            },
{
    let _ = lsd_order;
    let _ = LsdMethod::from_str(lsd_method);
    let ghost m = check_matrix@;
    let ghost post = posterior_llrs@;
    let ghost syn = syndrome@;
    let mut search: LsdSearch = LsdSearch::seed(check_matrix, syndrome);
    let n: usize = search.parent.len();
    proof {
        lemma_seeds_bound(syn, m.rows as int);
    }
    let ghost mut trace: Seq<LsdModel> = seq![search@];
    let mut active: bool = true;
    let mut iter: usize = 0;
    while active && iter < 100
        invariant
            m == check_matrix@,
            m.wf(),
            post == posterior_llrs@,
            syn == syndrome@,
            syndrome.len() == m.rows,
            posterior_llrs.len() == m.cols,
            search.wf(m),
            closed(m, search@),
            supported(m, search@),
            n == search.parent.len(),
            n == seeds_below(syn, m.rows as int),
            iter <= 100,
            iter == 0 ==> active,
            trace.len() == iter + 1,
            trace[0] == seeded(m, syn),
            trace.last() == search@,
            forall|i: int|
                0 <= i < trace.len() - 1 ==> lsd_round(m, syn, post, #[trigger] trace[i], trace[i + 1]),
            forall|i: int|
                0 <= i < trace.len() - 2 ==> any_grows(m, #[trigger] trace[i], post, n as int),
            iter > 0 ==> active == any_grows(m, trace[trace.len() - 2], post, n as int),
        decreases 100 - iter,
    {
        let ghost s = search@;
        active = false;
        iter += 1;
        let mut o: usize = 0;
        while o < n
            invariant
                m == check_matrix@,
                m.wf(),
                post == posterior_llrs@,
                posterior_llrs.len() == m.cols,
                search.wf(m),
                closed(m, search@),
                supported(m, search@),
                n == search.parent.len() == s.owner.len(),
                o <= n,
                search@ == grow_all(m, s, post, o as int),
                active == any_grows(m, s, post, o as int),
            decreases n - o,
        {
            proof {
                lemma_grow_keeps(m, search@, post, o as int);
            }
            let took: bool = search.grow_cluster(check_matrix, posterior_llrs, o);
            if took {
                active = true;
            }
            o += 1;
        }
        let ghost g = search@;
        let mut o: usize = 0;
        while o < n
            invariant
                m == check_matrix@,
                m.wf(),
                syn == syndrome@,
                syndrome.len() == m.rows,
                g.wf(m),
                closed(m, g),
                search.wf(m),
                supported(m, search@),
                n == search.parent.len() == g.owner.len(),
                o <= n,
                solved_below(m, syn, g, search@, o as int),
            decreases n - o,
        {
            let ghost t = search@;
            assert(closed(m, t));
            search.solve_cluster(check_matrix, syndrome, o);
            proof {
                lemma_solved_next(m, syn, g, t, search@, o as int);
            }
            o += 1;
        }
        proof {
            let old_trace = trace;
            trace = trace.push(search@);
            assert(lsd_round(m, syn, post, s, search@));
            assert forall|i: int| 0 <= i < trace.len() - 1 implies lsd_round(
                m,
                syn,
                post,
                #[trigger] trace[i],
                trace[i + 1],
            ) by {
                if i < old_trace.len() - 1 {
                    assert(old_trace[i] == trace[i] && old_trace[i + 1] == trace[i + 1]);
                }
            }
            assert forall|i: int| 0 <= i < trace.len() - 2 implies any_grows(
                m,
                #[trigger] trace[i],
                post,
                n as int,
            ) by {
                assert(old_trace[i] == trace[i]);
            }
            assert(closed(m, search@));
        }
    }
    assert(lsd_trace(m, syn, post, trace));
    search.report(check_matrix, prior_llrs)
}

proof fn lemma_seeds_bound(syndrome: Seq<Bit>, n: int)
    requires
        0 <= n,
    ensures
        0 <= seeds_below(syndrome, n) <= n,
    decreases n,
{
    if n > 0 {
        lemma_seeds_bound(syndrome, n - 1);
    }
}

/// No choice of its bits explains the checks of cluster `o`.
spec fn failed(m: MatrixModel, syndrome: Seq<Bit>, s: LsdModel, o: int) -> bool {
    !solvable(m, syndrome, s, o)
}

/// No errors at all explain the checks of cluster `o`.
spec fn hopeless(m: MatrixModel, syndrome: Seq<Bit>, s: LsdModel, o: int) -> bool {
    forall|y: Seq<Bit>| y.len() == m.cols && is_bits(y) ==> !#[trigger] explains(m, syndrome, s, o, y)
}

/// What holds of every state of a search when clusters below `n` have been looked at in the
/// present round.
spec fn sound(m: MatrixModel, syndrome: Seq<Bit>, s: LsdModel, n: int) -> bool {
    &&& s.wf(m)
    &&& closed(m, s)
    &&& supported(m, s)
    &&& forall|c: int|
        0 <= c < m.rows && syndrome[c] == 1 ==> #[trigger] s.check_owner[c] is Some
    &&& forall|o: int|
        0 <= o < s.owner.len() && s.owner[o] == o && #[trigger] s.valid[o] ==> explains(
            m,
            syndrome,
            s,
            o,
            s.correction,
        )
    &&& forall|o: int|
        0 <= o < s.owner.len() && s.owner[o] == o && !s.valid[o] && !(#[trigger] s.active[o])
            ==> hopeless(m, syndrome, s, o)
    &&& forall|o: int|
        n <= o < s.owner.len() && #[trigger] due(s, o) ==> failed(m, syndrome, s, o)
}

/// A cluster without neighbours whose bits fail is hopeless.
proof fn lemma_exhausted(m: MatrixModel, syndrome: Seq<Bit>, s: LsdModel, o: int)
    requires
        m.wf(),
        s.wf(m),
        failed(m, syndrome, s, o),
        forall|x: int| !#[trigger] candidate(m, s, o, x),
    ensures
        hopeless(m, syndrome, s, o),
{
    assert forall|y: Seq<Bit>| y.len() == m.cols && is_bits(y) implies !#[trigger] explains(
        m,
        syndrome,
        s,
        o,
        y,
    ) by {
        if explains(m, syndrome, s, o, y) {
            let z = Seq::new(
                m.cols,
                |x: int| if s.bit_owner[x] == Some(o as usize) { y[x] } else { 0 as Bit },
            );
            assert forall|c: int|
                0 <= c < m.rows && #[trigger] s.check_owner[c] == Some(o as usize) implies
                check_parity(
                m,
                z,
                c,
            ) == (syndrome[c] == 1) by {
                assert forall|x: int|
                    0 <= x < m.cols && #[trigger] m.entry(c, x) implies z[x] == y[x] by {
                    assert(!candidate(m, s, o, x));
                }
                lemma_check_parity_same(m, z, y, c);
            }
            assert(explains_locally(m, syndrome, s, o, z));
        }
    }
}

/// The clusters that growth leaves alone keep their bits and checks.
proof fn lemma_grown_others(m: MatrixModel, s: LsdModel, o: int, x: int, k: int)
    requires
        m.wf(),
        s.wf(m),
        closed(m, s),
        0 <= o < s.owner.len() <= usize::MAX,
        s.owner[o] == o,
        0 <= x < m.cols,
        0 <= k < s.owner.len(),
        k != o,
        grown(m, s, o, x).owner[k] == k,
    ensures
        s.owner[k] == k,
        !absorbed(m, s, x, k),
        forall|y: int|
            0 <= y < m.cols ==> (#[trigger] grown(m, s, o, x).bit_owner[y] == Some(k as usize)
                <==> s.bit_owner[y] == Some(k as usize)),
        forall|c: int|
            0 <= c < m.rows ==> (#[trigger] grown(m, s, o, x).check_owner[c] == Some(k as usize)
                <==> s.check_owner[c] == Some(k as usize)),
{
    assert(s.owner[k] < s.owner.len());
    let g = grown(m, s, o, x);
    assert forall|c: int| 0 <= c < m.rows implies (#[trigger] g.check_owner[c] == Some(k as usize)
        <==> s.check_owner[c] == Some(k as usize)) by {
        if s.check_owner[c] == Some(k as usize) && m.entry(c, x) {
            assert(absorbed(m, s, x, k));
        }
    }
}

/// Looking at a cluster for growth keeps the state sound.
proof fn lemma_grow_sound(
    m: MatrixModel,
    syndrome: Seq<Bit>,
    s: LsdModel,
    posterior: Seq<i64>,
    o: int,
)
    requires
        m.wf(),
        syndrome.len() == m.rows,
        sound(m, syndrome, s, o),
        0 <= o < s.owner.len() <= usize::MAX,
    ensures
        sound(m, syndrome, grow_step(m, s, posterior, o), o + 1),
{
    let t = grow_step(m, s, posterior, o);
    lemma_grow_keeps(m, s, posterior, o);
    if grows(m, s, posterior, o) {
        let x = choose|x: int| best_candidate(m, s, posterior, o, x);
        assert(best_candidate(m, s, posterior, o, x));
        assert(candidate(m, s, o, x));
        assert forall|c: int|
            0 <= c < m.rows && syndrome[c] == 1 implies #[trigger] t.check_owner[c] is Some by {
            assert(s.check_owner[c] is Some);
        }
        assert forall|k: int|
            0 <= k < t.owner.len() && t.owner[k] == k && #[trigger] t.valid[k] implies explains(
            m,
            syndrome,
            t,
            k,
            t.correction,
        ) by {
            if k != o {
                lemma_grown_others(m, s, o, x, k);
                assert(s.valid[k]);
                assert(explains(m, syndrome, s, k, s.correction));
                assert forall|c: int|
                    0 <= c < m.rows && #[trigger] t.check_owner[c] == Some(k as usize) implies
                    check_parity(
                    m,
                    t.correction,
                    c,
                ) == (syndrome[c] == 1) by {
                    assert(s.check_owner[c] == Some(k as usize));
                    assert forall|y: int|
                        0 <= y < m.cols && #[trigger] m.entry(c, y) implies t.correction[y]
                        == s.correction[y] by {
                        if t.bit_owner[y] == Some(o as usize) {
                            assert(t.check_owner[c] == t.bit_owner[y]);
                        }
                    }
                    lemma_check_parity_same(m, t.correction, s.correction, c);
                }
            } else {
                assert(!s.valid[o]);
            }
        }
        assert forall|k: int|
            0 <= k < t.owner.len() && t.owner[k] == k && !t.valid[k] && !(#[trigger] t.active[k]) implies
            hopeless(
            m,
            syndrome,
            t,
            k,
        ) by {
            assert(k != o);
            lemma_grown_others(m, s, o, x, k);
            assert(!s.active[k]);
            assert(hopeless(m, syndrome, s, k));
            assert forall|y: Seq<Bit>| y.len() == m.cols && is_bits(y) implies !#[trigger] explains(
                m,
                syndrome,
                t,
                k,
                y,
            ) by {
                if explains(m, syndrome, t, k, y) {
                    assert forall|c: int|
                        0 <= c < m.rows && #[trigger] s.check_owner[c] == Some(k as usize) implies
                        check_parity(
                        m,
                        y,
                        c,
                    ) == (syndrome[c] == 1) by {
                        assert(t.check_owner[c] == Some(k as usize));
                    }
                    assert(explains(m, syndrome, s, k, y));
                }
            }
        }
        assert forall|k: int| o + 1 <= k < t.owner.len() && #[trigger] due(t, k) implies failed(
            m,
            syndrome,
            t,
            k,
        ) by {
            lemma_grown_others(m, s, o, x, k);
            assert(due(s, k));
            if solvable(m, syndrome, t, k) {
                let y = choose|y: Seq<Bit>| explains_locally(m, syndrome, t, k, y);
                assert forall|c: int|
                    0 <= c < m.rows && #[trigger] s.check_owner[c] == Some(k as usize) implies
                    check_parity(
                    m,
                    y,
                    c,
                ) == (syndrome[c] == 1) by {
                    assert(t.check_owner[c] == Some(k as usize));
                }
                assert forall|z: int|
                    0 <= z < m.cols && #[trigger] y[z] == 1 implies s.bit_owner[z] == Some(
                    k as usize,
                ) by {
                    assert(t.bit_owner[z] == Some(k as usize));
                }
                assert(explains_locally(m, syndrome, s, k, y));
            }
        }
    } else if due(s, o) {
        assert forall|x: int| !#[trigger] candidate(m, s, o, x) by {
            if candidate(m, s, o, x) {
                lemma_best_exists(m, s, posterior, o, x, m.cols as int);
            }
        }
        lemma_exhausted(m, syndrome, s, o);
        lemma_same_clusters(m, syndrome, s, t);
        assert forall|k: int|
            0 <= k < t.owner.len() && t.owner[k] == k && #[trigger] t.valid[k] implies explains(
            m,
            syndrome,
            t,
            k,
            t.correction,
        ) by {
            assert(s.valid[k]);
        }
        assert forall|k: int|
            0 <= k < t.owner.len() && t.owner[k] == k && !t.valid[k] && !(#[trigger] t.active[k]) implies
            hopeless(
            m,
            syndrome,
            t,
            k,
        ) by {
            if k != o {
                assert(!s.active[k]);
            }
        }
        assert forall|k: int| o + 1 <= k < t.owner.len() && #[trigger] due(t, k) implies failed(
            m,
            syndrome,
            t,
            k,
        ) by {
            assert(due(s, k));
        }
    } else {
        assert forall|k: int| o + 1 <= k < t.owner.len() && #[trigger] due(t, k) implies failed(
            m,
            syndrome,
            t,
            k,
        ) by {
            assert(due(s, k));
        }
    }
}

/// What a cluster can explain depends on who owns what alone.
proof fn lemma_same_clusters(m: MatrixModel, syndrome: Seq<Bit>, s: LsdModel, t: LsdModel)
    requires
        s.bit_owner == t.bit_owner,
        s.check_owner == t.check_owner,
    ensures
        forall|k: int, y: Seq<Bit>|
            #[trigger] explains(m, syndrome, t, k, y) == explains(m, syndrome, s, k, y),
        forall|k: int| #[trigger] solvable(m, syndrome, t, k) == solvable(m, syndrome, s, k),
        forall|k: int| #[trigger] hopeless(m, syndrome, t, k) == hopeless(m, syndrome, s, k),
{
    assert forall|k: int, y: Seq<Bit>|
        #[trigger] explains(m, syndrome, t, k, y) == explains(m, syndrome, s, k, y) by {
        if explains(m, syndrome, t, k, y) {
            assert forall|c: int|
                0 <= c < m.rows && #[trigger] s.check_owner[c] == Some(k as usize) implies
                check_parity(
                m,
                y,
                c,
            ) == (syndrome[c] == 1) by {
                assert(t.check_owner[c] == Some(k as usize));
            }
        }
        if explains(m, syndrome, s, k, y) {
            assert forall|c: int|
                0 <= c < m.rows && #[trigger] t.check_owner[c] == Some(k as usize) implies
                check_parity(
                m,
                y,
                c,
            ) == (syndrome[c] == 1) by {
                assert(s.check_owner[c] == Some(k as usize));
            }
        }
    }
    assert forall|k: int| #[trigger] solvable(m, syndrome, t, k) == solvable(m, syndrome, s, k) by {
        if solvable(m, syndrome, t, k) {
            let y = choose|y: Seq<Bit>| explains_locally(m, syndrome, t, k, y);
            assert(explains_locally(m, syndrome, s, k, y));
        }
        if solvable(m, syndrome, s, k) {
            let y = choose|y: Seq<Bit>| explains_locally(m, syndrome, s, k, y);
            assert(explains_locally(m, syndrome, t, k, y));
        }
    }
    assert forall|k: int| #[trigger] hopeless(m, syndrome, t, k) == hopeless(m, syndrome, s, k) by {
        if hopeless(m, syndrome, s, k) {
            assert forall|y: Seq<Bit>| y.len() == m.cols && is_bits(y) implies !#[trigger] explains(
                m,
                syndrome,
                t,
                k,
                y,
            ) by {
                assert(!explains(m, syndrome, s, k, y));
            }
        }
        if hopeless(m, syndrome, t, k) {
            assert forall|y: Seq<Bit>| y.len() == m.cols && is_bits(y) implies !#[trigger] explains(
                m,
                syndrome,
                s,
                k,
                y,
            ) by {
                assert(!explains(m, syndrome, t, k, y));
            }
        }
    }
}

/// Among candidates there is a best one.
proof fn lemma_best_exists(
    m: MatrixModel,
    s: LsdModel,
    posterior: Seq<i64>,
    o: int,
    x: int,
    n: int,
)
    requires
        candidate(m, s, o, x),
        0 <= n,
    ensures
        exists|b: int| best_candidate(m, s, posterior, o, b),
{
    let b = best_below(m, s, posterior, o, x, m.cols as int);
    lemma_best_below(m, s, posterior, o, x, m.cols as int);
    assert(best_candidate(m, s, posterior, o, b));
}

/// The best of `x` and the candidates below `n`.
spec fn best_below(
    m: MatrixModel,
    s: LsdModel,
    posterior: Seq<i64>,
    o: int,
    x: int,
    n: int,
) -> int
    decreases n,
{
    if n <= 0 {
        x
    } else {
        let b = best_below(m, s, posterior, o, x, n - 1);
        if candidate(m, s, o, n - 1) && weakest_of(posterior, n - 1, b) {
            n - 1
        } else {
            b
        }
    }
}

proof fn lemma_best_below(
    m: MatrixModel,
    s: LsdModel,
    posterior: Seq<i64>,
    o: int,
    x: int,
    n: int,
)
    requires
        candidate(m, s, o, x),
    ensures
        ({
            let b = best_below(m, s, posterior, o, x, n);
            &&& candidate(m, s, o, b)
            &&& forall|y: int|
                0 <= y < n && #[trigger] candidate(m, s, o, y) ==> weakest_of(posterior, b, y)
        }),
    decreases n,
{
    if n > 0 {
        lemma_best_below(m, s, posterior, o, x, n - 1);
    }
}

proof fn lemma_grow_all_sound(
    m: MatrixModel,
    syndrome: Seq<Bit>,
    s: LsdModel,
    posterior: Seq<i64>,
    n: int,
)
    requires
        m.wf(),
        syndrome.len() == m.rows,
        sound(m, syndrome, s, 0),
        0 <= n <= s.owner.len() <= usize::MAX,
    ensures
        sound(m, syndrome, grow_all(m, s, posterior, n), n),
        grow_all(m, s, posterior, n).owner.len() == s.owner.len(),
    decreases n,
{
    if n > 0 {
        lemma_grow_all_sound(m, syndrome, s, posterior, n - 1);
        let t = grow_all(m, s, posterior, n - 1);
        lemma_grow_sound(m, syndrome, t, posterior, n - 1);
        lemma_grow_keeps(m, t, posterior, n - 1);
    }
}

/// A round keeps the state sound.
proof fn lemma_round_sound(
    m: MatrixModel,
    syndrome: Seq<Bit>,
    posterior: Seq<i64>,
    s: LsdModel,
    t: LsdModel,
)
    requires
        m.wf(),
        syndrome.len() == m.rows,
        sound(m, syndrome, s, 0),
        s.owner.len() <= usize::MAX,
        lsd_round(m, syndrome, posterior, s, t),
    ensures
        sound(m, syndrome, t, 0),
        t.owner.len() == s.owner.len(),
{
    let n = s.owner.len() as int;
    let g = grow_all(m, s, posterior, n);
    lemma_grow_all_sound(m, syndrome, s, posterior, n);
    assert(solved_below(m, syndrome, g, t, n));
    lemma_same_clusters(m, syndrome, g, t);
    assert(is_bits(t.correction));
    assert forall|k: int|
        0 <= k < t.owner.len() && t.owner[k] != k implies !(#[trigger] t.active[k])
        && t.valid[k] by {
        assert(!g.active[k]);
        assert(t.valid[k] == (g.valid[k] || (k < n && due(g, k) && solvable(m, syndrome, g, k))));
    }
    assert(t.wf(m));
    assert(closed(m, t));
    assert forall|x: int|
        0 <= x < m.cols && #[trigger] t.correction[x] == 1 implies t.bit_owner[x] is Some by {
        if t.correction[x] == g.correction[x] {
            assert(g.correction[x] == 1);
        }
    }
    assert forall|k: int|
        0 <= k < t.owner.len() && t.owner[k] == k && #[trigger] t.valid[k] implies explains(
        m,
        syndrome,
        t,
        k,
        t.correction,
    ) by {
        let solve = k < n && due(g, k) && solvable(m, syndrome, g, k);
        assert(t.valid[k] == (g.valid[k] || solve));
        if solve {
            assert(explains(m, syndrome, g, k, t.correction));
        } else {
            assert(g.valid[k]);
            assert(explains(m, syndrome, g, k, g.correction));
            assert forall|c: int|
                0 <= c < m.rows && #[trigger] g.check_owner[c] == Some(k as usize) implies
                check_parity(
                m,
                t.correction,
                c,
            ) == (syndrome[c] == 1) by {
                assert forall|x: int|
                    0 <= x < m.cols && #[trigger] m.entry(c, x) implies t.correction[x]
                    == g.correction[x] by {
                    if t.correction[x] != g.correction[x] {
                        let q = choose|q: int|
                            0 <= q < n && g.bit_owner[x] == Some(q as usize) && #[trigger] due(g, q)
                                && solvable(m, syndrome, g, q);
                        assert(g.check_owner[c] == g.bit_owner[x]);
                        assert(q == k);
                    }
                }
                lemma_check_parity_same(m, t.correction, g.correction, c);
            }
            assert(explains(m, syndrome, g, k, t.correction));
        }
    }
    assert forall|k: int|
        0 <= k < t.owner.len() && t.owner[k] == k && !t.valid[k] && !(#[trigger] t.active[k]) implies
        hopeless(
        m,
        syndrome,
        t,
        k,
    ) by {
        assert(t.valid[k] == (g.valid[k] || (k < n && due(g, k) && solvable(m, syndrome, g, k))));
        assert(!g.active[k]);
        assert(hopeless(m, syndrome, g, k));
    }
    assert forall|k: int| 0 <= k < t.owner.len() && #[trigger] due(t, k) implies failed(
        m,
        syndrome,
        t,
        k,
    ) by {
        assert(t.valid[k] == (g.valid[k] || (k < n && due(g, k) && solvable(m, syndrome, g, k))));
        assert(due(g, k));
    }
}

/// The start of a search is sound.
proof fn lemma_seeded_sound(m: MatrixModel, syndrome: Seq<Bit>)
    requires
        m.wf(),
        syndrome.len() == m.rows,
    ensures
        sound(m, syndrome, seeded(m, syndrome), 0),
{
    let s = seeded(m, syndrome);
    lemma_seeds_bound(syndrome, m.rows as int);
    assert forall|c: int| 0 <= c < m.rows implies (#[trigger] s.check_owner[c] matches Some(k) ==> k
        < s.owner.len() && s.owner[k as int] == k) by {
        if syndrome[c] == 1 {
            lemma_seeds_step(syndrome, c, m.rows as int);
        }
    }
    assert forall|o: int| 0 <= o < s.owner.len() && #[trigger] due(s, o) implies failed(
        m,
        syndrome,
        s,
        o,
    ) by {
        if solvable(m, syndrome, s, o) {
            let y = choose|y: Seq<Bit>| explains_locally(m, syndrome, s, o, y);
            lemma_seed_of(syndrome, o, m.rows as int);
            let c = choose|c: int|
                0 <= c < m.rows && syndrome[c] == 1 && #[trigger] seeds_below(syndrome, c) == o;
            assert(s.check_owner[c] == Some(o as usize));
            let zero = Seq::new(m.cols, |x: int| 0 as Bit);
            assert forall|x: int| 0 <= x < m.cols implies y[x] != 1 by {
                if y[x] == 1 {
                    assert(s.bit_owner[x] == Some(o as usize));
                }
            }
            lemma_check_parity_dense(m, y, c);
            lemma_parity_tail(dense_row(m, c), y, 0, m.cols as int);
        }
    }
}

proof fn lemma_seeds_step(syndrome: Seq<Bit>, c: int, n: int)
    requires
        0 <= c < n,
        syndrome[c] == 1,
    ensures
        0 <= seeds_below(syndrome, c) < seeds_below(syndrome, n),
    decreases n,
{
    lemma_seeds_bound(syndrome, c);
    if c < n - 1 {
        lemma_seeds_step(syndrome, c, n - 1);
    }
}

proof fn lemma_seed_of(syndrome: Seq<Bit>, o: int, n: int)
    requires
        0 <= o < seeds_below(syndrome, n),
        0 <= n,
    ensures
        exists|c: int| 0 <= c < n && syndrome[c] == 1 && #[trigger] seeds_below(syndrome, c) == o,
    decreases n,
{
    if n > 0 {
        if o < seeds_below(syndrome, n - 1) {
            lemma_seed_of(syndrome, o, n - 1);
            let c = choose|c: int|
                0 <= c < n - 1 && syndrome[c] == 1 && #[trigger] seeds_below(syndrome, c) == o;
            assert(seeds_below(syndrome, c) == o);
        } else {
            assert(seeds_below(syndrome, n - 1) == o);
        }
    }
}

proof fn lemma_trace_sound(
    m: MatrixModel,
    syndrome: Seq<Bit>,
    posterior: Seq<i64>,
    trace: Seq<LsdModel>,
    i: int,
)
    requires
        m.wf(),
        syndrome.len() == m.rows,
        lsd_trace(m, syndrome, posterior, trace),
        0 <= i < trace.len(),
    ensures
        sound(m, syndrome, trace[i], 0),
        trace[i].owner.len() == seeds_below(syndrome, m.rows as int),
    decreases i,
{
    lemma_seeds_bound(syndrome, m.rows as int);
    if i == 0 {
        lemma_seeded_sound(m, syndrome);
    } else {
        lemma_trace_sound(m, syndrome, posterior, trace, i - 1);
        assert(lsd_round(m, syndrome, posterior, trace[i - 1], trace[i - 1 + 1]));
        lemma_round_sound(m, syndrome, posterior, trace[i - 1], trace[i]);
    }
}

/// After a search, the correction explains every check that belongs to no cluster or to a
/// solved one.
#[verifier::rlimit(40)]
pub proof fn law_solved_checks_explained(
    m: MatrixModel,
    syndrome: Seq<Bit>,
    posterior: Seq<i64>,
    trace: Seq<LsdModel>,
    c: int,
)
    requires
        m.wf(),
        syndrome.len() == m.rows,
        lsd_trace(m, syndrome, posterior, trace),
        0 <= c < m.rows,
        trace.last().check_owner[c] matches Some(o) ==> trace.last().valid[o as int],
    ensures
        check_parity(m, trace.last().correction, c) == (syndrome[c] == 1),
{
    let s = trace.last();
    lemma_trace_sound(m, syndrome, posterior, trace, trace.len() - 1);
    match s.check_owner[c] {
        Some(o) => {
            assert(s.owner[o as int] == o);
            assert(explains(m, syndrome, s, o as int, s.correction));
        },
        None => {
            assert(syndrome[c] != 1);
            let zero = Seq::new(m.cols, |x: int| 0 as Bit);
            assert forall|x: int|
                0 <= x < m.cols && #[trigger] m.entry(c, x) implies s.correction[x]
                == zero[x] by {
                if s.correction[x] == 1 {
                    assert(s.check_owner[c] == s.bit_owner[x]);
                }
                assert(s.correction[x] == 0 || s.correction[x] == 1);
            }
            lemma_check_parity_same(m, s.correction, zero, c);
            lemma_check_parity_dense(m, zero, c);
            lemma_parity_tail(dense_row(m, c), zero, 0, m.cols as int);
        },
    }
}

/// Only bits of solved clusters are corrected, and a cluster that rests has no neighbours.
spec fn tidy(m: MatrixModel, s: LsdModel) -> bool {
    &&& forall|x: int|
        0 <= x < m.cols && #[trigger] s.correction[x] == 1 ==> (s.bit_owner[x] matches Some(k)
            && s.valid[k as int])
    &&& forall|o: int, x: int|
        0 <= o < s.owner.len() && s.owner[o] == o && !s.valid[o] && !s.active[o]
            ==> !#[trigger] candidate(m, s, o, x)
}

/// Looking at a cluster for growth keeps the state tidy.
proof fn lemma_grow_tidy(
    m: MatrixModel,
    syndrome: Seq<Bit>,
    s: LsdModel,
    posterior: Seq<i64>,
    o: int,
)
    requires
        m.wf(),
        sound(m, syndrome, s, o),
        tidy(m, s),
        0 <= o < s.owner.len() <= usize::MAX,
    ensures
        tidy(m, grow_step(m, s, posterior, o)),
{
    let t = grow_step(m, s, posterior, o);
    lemma_grow_keeps(m, s, posterior, o);
    if grows(m, s, posterior, o) {
        let x = choose|x: int| best_candidate(m, s, posterior, o, x);
        assert(best_candidate(m, s, posterior, o, x));
        assert(candidate(m, s, o, x));
        assert forall|y: int| 0 <= y < m.cols && #[trigger] t.correction[y] == 1 implies (
        t.bit_owner[y] matches Some(k) && t.valid[k as int]) by {
            assert(t.bit_owner[y] != Some(o as usize));
            assert(s.correction[y] == 1);
            let k = t.bit_owner[y]->0 as int;
            assert(t.bit_owner[y] is Some);
            assert(t.owner[k] == k);
            lemma_grown_others(m, s, o, x, k);
            assert(s.valid[k]);
        }
        assert forall|k: int, y: int|
            0 <= k < t.owner.len() && t.owner[k] == k && !t.valid[k] && !t.active[k] implies
            !#[trigger] candidate(m, t, k, y) by {
            assert(k != o);
            lemma_grown_others(m, s, o, x, k);
            if candidate(m, t, k, y) {
                let c = choose|c: int|
                    0 <= c < m.rows && t.check_owner[c] == Some(k as usize) && #[trigger] m.entry(
                        c,
                        y,
                    );
                assert(s.check_owner[c] == Some(k as usize));
                assert(s.bit_owner[y] != Some(k as usize)) by {
                    assert(t.bit_owner[y] != Some(k as usize));
                }
                assert(candidate(m, s, k, y));
            }
        }
    } else if due(s, o) {
        assert forall|x: int| !#[trigger] candidate(m, s, o, x) by {
            if candidate(m, s, o, x) {
                lemma_best_exists(m, s, posterior, o, x, m.cols as int);
            }
        }
        assert forall|k: int, y: int|
            0 <= k < t.owner.len() && t.owner[k] == k && !t.valid[k] && !t.active[k] implies
            !#[trigger] candidate(m, t, k, y) by {
            assert(candidate(m, t, k, y) == candidate(m, s, k, y));
        }
    }
}

proof fn lemma_grow_all_tidy(
    m: MatrixModel,
    syndrome: Seq<Bit>,
    s: LsdModel,
    posterior: Seq<i64>,
    n: int,
)
    requires
        m.wf(),
        syndrome.len() == m.rows,
        sound(m, syndrome, s, 0),
        tidy(m, s),
        0 <= n <= s.owner.len() <= usize::MAX,
    ensures
        tidy(m, grow_all(m, s, posterior, n)),
    decreases n,
{
    if n > 0 {
        lemma_grow_all_tidy(m, syndrome, s, posterior, n - 1);
        lemma_grow_all_sound(m, syndrome, s, posterior, n - 1);
        lemma_grow_tidy(m, syndrome, grow_all(m, s, posterior, n - 1), posterior, n - 1);
    }
}

/// Every state of a search is tidy.
proof fn lemma_trace_tidy(
    m: MatrixModel,
    syndrome: Seq<Bit>,
    posterior: Seq<i64>,
    trace: Seq<LsdModel>,
    i: int,
)
    requires
        m.wf(),
        syndrome.len() == m.rows,
        lsd_trace(m, syndrome, posterior, trace),
        0 <= i < trace.len(),
    ensures
        tidy(m, trace[i]),
    decreases i,
{
    lemma_seeds_bound(syndrome, m.rows as int);
    if i > 0 {
        let s = trace[i - 1];
        let t = trace[i];
        let n = s.owner.len() as int;
        lemma_trace_tidy(m, syndrome, posterior, trace, i - 1);
        lemma_trace_sound(m, syndrome, posterior, trace, i - 1);
        lemma_grow_all_tidy(m, syndrome, s, posterior, n);
        lemma_grow_all_sound(m, syndrome, s, posterior, n);
        assert(lsd_round(m, syndrome, posterior, trace[i - 1], trace[i - 1 + 1]));
        let g = grow_all(m, s, posterior, n);
        assert(solved_below(m, syndrome, g, t, n));
        assert forall|x: int| 0 <= x < m.cols && #[trigger] t.correction[x] == 1 implies (
        t.bit_owner[x] matches Some(k) && t.valid[k as int]) by {
            if t.correction[x] == g.correction[x] {
                assert(g.correction[x] == 1);
                let k = g.bit_owner[x]->0 as int;
                assert(g.valid[k]);
                assert(t.valid[k]);
            } else {
                let q = choose|q: int|
                    0 <= q < n && g.bit_owner[x] == Some(q as usize) && #[trigger] due(g, q)
                        && solvable(m, syndrome, g, q);
                assert(t.valid[q]);
            }
        }
        assert forall|o: int, x: int|
            0 <= o < t.owner.len() && t.owner[o] == o && !t.valid[o] && !t.active[o] implies
            !#[trigger] candidate(m, t, o, x) by {
            assert(t.valid[o] == (g.valid[o] || (o < n && due(g, o) && solvable(
                m,
                syndrome,
                g,
                o,
            ))));
            assert(candidate(m, t, o, x) == candidate(m, g, o, x));
        }
    }
}

/// The correction of a search has parity zero in every check of a cluster that is not solved.
proof fn lemma_unsolved_even(
    m: MatrixModel,
    syndrome: Seq<Bit>,
    posterior: Seq<i64>,
    trace: Seq<LsdModel>,
    c: int,
)
    requires
        m.wf(),
        syndrome.len() == m.rows,
        lsd_trace(m, syndrome, posterior, trace),
        0 <= c < m.rows,
        trace.last().check_owner[c] matches Some(o) && !trace.last().valid[o as int],
    ensures
        !check_parity(m, trace.last().correction, c),
{
    let s = trace.last();
    lemma_trace_sound(m, syndrome, posterior, trace, trace.len() - 1);
    lemma_trace_tidy(m, syndrome, posterior, trace, trace.len() - 1);
    let zero = Seq::new(m.cols, |x: int| 0 as Bit);
    assert forall|x: int| 0 <= x < m.cols && #[trigger] m.entry(c, x) implies s.correction[x]
        == zero[x] by {
        if s.correction[x] == 1 {
            assert(s.check_owner[c] == s.bit_owner[x]);
        }
        assert(s.correction[x] == 0 || s.correction[x] == 1);
    }
    lemma_check_parity_same(m, s.correction, zero, c);
    lemma_check_parity_dense(m, zero, c);
    lemma_parity_tail(dense_row(m, c), zero, 0, m.cols as int);
}

/// A correction breaks no satisfied check: where the syndrome has no one, the syndrome of the
/// correction has none. Where it has a one, that is explained exactly if the cluster of the
/// check was solved.
pub proof fn law_satisfied_checks_stay(
    m: MatrixModel,
    syndrome: Seq<Bit>,
    posterior: Seq<i64>,
    trace: Seq<LsdModel>,
    c: int,
)
    requires
        m.wf(),
        syndrome.len() == m.rows,
        lsd_trace(m, syndrome, posterior, trace),
        0 <= c < m.rows,
    ensures
        syndrome[c] != 1 ==> m.mul_mod2(trace.last().correction)[c] == 0,
        syndrome[c] == 1 ==> {
            let s = trace.last();
            &&& s.check_owner[c] is Some
            &&& m.mul_mod2(s.correction)[c] == (if s.valid[s.check_owner[c]->0 as int] {
                1u8
            } else {
                0
            })
        },
{
    let s = trace.last();
    lemma_trace_sound(m, syndrome, posterior, trace, trace.len() - 1);
    if s.check_owner[c] is Some && !s.valid[s.check_owner[c]->0 as int] {
        lemma_unsolved_even(m, syndrome, posterior, trace, c);
    } else {
        law_solved_checks_explained(m, syndrome, posterior, trace, c);
    }
}

/// Where nothing grows, no cluster stays due.
proof fn lemma_no_growth(m: MatrixModel, s: LsdModel, posterior: Seq<i64>, n: int)
    requires
        0 <= n <= s.owner.len(),
        s.active.len() == s.owner.len(),
        !any_grows(m, s, posterior, n),
    ensures
        forall|o: int| 0 <= o < n ==> !#[trigger] due(grow_all(m, s, posterior, n), o),
        grow_all(m, s, posterior, n) == (LsdModel {
            active: grow_all(m, s, posterior, n).active,
            ..s
        }),
        grow_all(m, s, posterior, n).active.len() == s.active.len(),
    decreases n,
{
    if n > 0 {
        lemma_no_growth(m, s, posterior, n - 1);
        let g = grow_all(m, s, posterior, n - 1);
        let t = grow_step(m, g, posterior, n - 1);
        assert forall|o: int| 0 <= o < n implies !#[trigger] due(t, o) by {
            if o < n - 1 {
                assert(!due(g, o));
            }
        }
    }
}

/// Where every bit has an owner, a cluster holds all the bits of its checks, so that its bits
/// explain what any error explains.
proof fn lemma_all_owned_solvable(
    m: MatrixModel,
    syndrome: Seq<Bit>,
    s: LsdModel,
    o: int,
    error: Seq<Bit>,
)
    requires
        m.wf(),
        closed(m, s),
        0 <= o < s.owner.len() <= usize::MAX,
        forall|x: int| 0 <= x < m.cols ==> #[trigger] s.bit_owner[x] is Some,
        error.len() == m.cols,
        is_bits(error),
        explains(m, syndrome, s, o, error),
    ensures
        solvable(m, syndrome, s, o),
{
    let y = Seq::new(
        m.cols,
        |x: int| if s.bit_owner[x] == Some(o as usize) { error[x] } else { 0 as Bit },
    );
    assert forall|c: int|
        0 <= c < m.rows && #[trigger] s.check_owner[c] == Some(o as usize) implies check_parity(
        m,
        y,
        c,
    ) == (syndrome[c] == 1) by {
        assert forall|x: int| 0 <= x < m.cols && #[trigger] m.entry(c, x) implies y[x]
            == error[x] by {
            assert(s.bit_owner[x] is Some);
        }
        lemma_check_parity_same(m, y, error, c);
    }
    assert(explains_locally(m, syndrome, s, o, y));
}

/// Where no due cluster is unsolvable after the last growth, the search explains what any
/// error explains.
proof fn lemma_search_explains(
    m: MatrixModel,
    syndrome: Seq<Bit>,
    posterior: Seq<i64>,
    trace: Seq<LsdModel>,
    error: Seq<Bit>,
)
    requires
        m.wf(),
        syndrome.len() == m.rows,
        lsd_trace(m, syndrome, posterior, trace),
        error.len() == m.cols,
        is_bits(error),
        m.mul_mod2(error) == syndrome,
        ({
            let k = seeds_below(syndrome, m.rows as int);
            let g = grow_all(m, trace[trace.len() - 2], posterior, k);
            forall|o: int|
                0 <= o < k && #[trigger] due(g, o) && explains(m, syndrome, g, o, error)
                    ==> solvable(m, syndrome, g, o)
        }),
    ensures
        m.mul_mod2(trace.last().correction) == syndrome,
{
    let k = seeds_below(syndrome, m.rows as int);
    let t = trace.last();
    lemma_trace_sound(m, syndrome, posterior, trace, trace.len() - 2);
    lemma_trace_sound(m, syndrome, posterior, trace, trace.len() - 1);
    let g = grow_all(m, trace[trace.len() - 2], posterior, k);
    assert(lsd_round(m, syndrome, posterior, trace[trace.len() - 2], trace[trace.len() - 2 + 1]));
    assert(solved_below(m, syndrome, g, t, k));
    assert forall|c: int|
        0 <= c < m.rows implies #[trigger] m.mul_mod2(t.correction)[c] == syndrome[c] by {
        assert(m.mul_mod2(error)[c] == syndrome[c]);
        if t.check_owner[c] is Some {
            let o = t.check_owner[c]->0 as int;
            assert(t.owner[o] == o);
            if !t.valid[o] {
                assert forall|d: int|
                    0 <= d < m.rows && #[trigger] t.check_owner[d] == Some(o as usize) implies
                    check_parity(
                    m,
                    error,
                    d,
                ) == (syndrome[d] == 1) by {
                    assert(m.mul_mod2(error)[d] == syndrome[d]);
                }
                assert(explains(m, syndrome, t, o, error));
                assert(explains(m, syndrome, g, o, error));
                assert(t.valid[o] == (g.valid[o] || (o < k && due(g, o) && solvable(
                    m,
                    syndrome,
                    g,
                    o,
                ))));
                assert(!due(g, o));
                assert(!t.active[o]);
                assert(hopeless(m, syndrome, t, o));
                assert(false);
            }
        }
        law_solved_checks_explained(m, syndrome, posterior, trace, c);
    }
    assert(m.mul_mod2(t.correction) =~= syndrome);
}

/// A search that ends because nothing grows any more explains the syndrome, if any error
/// explains it.
pub proof fn law_search_explains(
    m: MatrixModel,
    syndrome: Seq<Bit>,
    posterior: Seq<i64>,
    trace: Seq<LsdModel>,
    error: Seq<Bit>,
)
    requires
        m.wf(),
        syndrome.len() == m.rows,
        lsd_trace(m, syndrome, posterior, trace),
        !any_grows(
            m,
            trace[trace.len() - 2],
            posterior,
            seeds_below(syndrome, m.rows as int),
        ),
        error.len() == m.cols,
        is_bits(error),
        m.mul_mod2(error) == syndrome,
    ensures
        m.mul_mod2(trace.last().correction) == syndrome,
{
    lemma_trace_sound(m, syndrome, posterior, trace, trace.len() - 2);
    lemma_no_growth(
        m,
        trace[trace.len() - 2],
        posterior,
        seeds_below(syndrome, m.rows as int),
    );
    lemma_search_explains(m, syndrome, posterior, trace, error);
}

/// The flags below `n` that are set.
spec fn count_set(flags: Seq<bool>, n: int) -> int
    decreases n,
{
    if n <= 0 {
        0
    } else {
        count_set(flags, n - 1) + (if flags[n - 1] {
            1int
        } else {
            0int
        })
    }
}

proof fn lemma_count_mono(a: Seq<bool>, b: Seq<bool>, n: int)
    requires
        0 <= n <= a.len(),
        a.len() == b.len(),
        forall|i: int| 0 <= i < n && a[i] ==> b[i],
    ensures
        0 <= count_set(a, n) <= count_set(b, n) <= n,
        (exists|i: int| 0 <= i < n && !a[i] && b[i]) ==> count_set(a, n) < count_set(b, n),
    decreases n,
{
    if n > 0 {
        lemma_count_mono(a, b, n - 1);
    }
}

/// The bits that have an owner.
spec fn owned(m: MatrixModel, s: LsdModel) -> Seq<bool> {
    Seq::new(m.cols, |x: int| s.bit_owner[x] is Some)
}

proof fn lemma_count_full(a: Seq<bool>, n: int)
    requires
        0 <= n <= a.len(),
        count_set(a, n) >= n,
    ensures
        forall|i: int| 0 <= i < n ==> #[trigger] a[i],
    decreases n,
{
    if n > 0 {
        lemma_count_mono(a, a, n - 1);
        lemma_count_full(a, n - 1);
    }
}

/// A cluster that grows takes a bit that had no owner: whoever owned it would own the check
/// next to it as well.
proof fn lemma_grow_owned(m: MatrixModel, s: LsdModel, posterior: Seq<i64>, o: int)
    requires
        m.wf(),
        s.wf(m),
        closed(m, s),
        supported(m, s),
        0 <= o < s.owner.len() <= usize::MAX,
    ensures
        ({
            let t = grow_step(m, s, posterior, o);
            let n = m.cols as int;
            &&& t.owner.len() == s.owner.len()
            &&& 0 <= count_set(owned(m, s), n) <= count_set(owned(m, t), n) <= n
            &&& grows(m, s, posterior, o) ==> count_set(owned(m, s), n) < count_set(owned(m, t), n)
        }),
{
    let t = grow_step(m, s, posterior, o);
    let a = owned(m, s);
    let b = owned(m, t);
    lemma_grow_keeps(m, s, posterior, o);
    if grows(m, s, posterior, o) {
        let x = choose|x: int| best_candidate(m, s, posterior, o, x);
        assert(best_candidate(m, s, posterior, o, x));
        assert(candidate(m, s, o, x));
        let c = choose|c: int|
            0 <= c < m.rows && s.check_owner[c] == Some(o as usize) && #[trigger] m.entry(c, x);
        assert(m.entry(c, x));
        assert(s.bit_owner[x] is None);
        assert(!a[x] && b[x]);
    } else {
        assert(a =~= b);
    }
    lemma_count_mono(a, b, m.cols as int);
}

proof fn lemma_grow_all_owned(m: MatrixModel, s: LsdModel, posterior: Seq<i64>, o: int)
    requires
        m.wf(),
        s.wf(m),
        closed(m, s),
        supported(m, s),
        0 <= o <= s.owner.len() <= usize::MAX,
    ensures
        ({
            let t = grow_all(m, s, posterior, o);
            let n = m.cols as int;
            &&& t.wf(m)
            &&& closed(m, t)
            &&& supported(m, t)
            &&& t.owner.len() == s.owner.len()
            &&& 0 <= count_set(owned(m, s), n) <= count_set(owned(m, t), n)
            &&& any_grows(m, s, posterior, o) ==> count_set(owned(m, s), n) < count_set(
                owned(m, t),
                n,
            )
        }),
    decreases o,
{
    if o > 0 {
        lemma_grow_all_owned(m, s, posterior, o - 1);
        let g = grow_all(m, s, posterior, o - 1);
        lemma_grow_owned(m, g, posterior, o - 1);
        lemma_grow_keeps(m, g, posterior, o - 1);
    } else {
        lemma_count_mono(owned(m, s), owned(m, s), m.cols as int);
    }
}

proof fn lemma_trace_owned(
    m: MatrixModel,
    syndrome: Seq<Bit>,
    posterior: Seq<i64>,
    trace: Seq<LsdModel>,
    i: int,
)
    requires
        m.wf(),
        syndrome.len() == m.rows,
        lsd_trace(m, syndrome, posterior, trace),
        0 <= i < trace.len() - 1,
    ensures
        count_set(owned(m, trace[i]), m.cols as int) >= i,
    decreases i,
{
    let k = seeds_below(syndrome, m.rows as int);
    lemma_trace_sound(m, syndrome, posterior, trace, i);
    if i == 0 {
        lemma_count_mono(owned(m, trace[0]), owned(m, trace[0]), m.cols as int);
    } else {
        lemma_trace_sound(m, syndrome, posterior, trace, i - 1);
        lemma_trace_owned(m, syndrome, posterior, trace, i - 1);
        let s = trace[i - 1];
        let t = trace[i];
        lemma_seeds_bound(syndrome, m.rows as int);
        lemma_grow_all_owned(m, s, posterior, k);
        assert(lsd_round(m, syndrome, posterior, trace[i - 1], trace[i - 1 + 1]));
        assert(any_grows(m, trace[i - 1], posterior, k));
        let g = grow_all(m, s, posterior, k);
        assert(owned(m, t) =~= owned(m, g));
    }
}

/// On a matrix with at most a hundred columns, as many as there are rounds, the correction of
/// a search explains the syndrome whenever any error does.
pub proof fn law_small_search_explains(
    m: MatrixModel,
    syndrome: Seq<Bit>,
    posterior: Seq<i64>,
    trace: Seq<LsdModel>,
    error: Seq<Bit>,
)
    requires
        m.wf(),
        syndrome.len() == m.rows,
        lsd_trace(m, syndrome, posterior, trace),
        m.cols <= 100,
        error.len() == m.cols,
        is_bits(error),
        m.mul_mod2(error) == syndrome,
    ensures
        m.mul_mod2(trace.last().correction) == syndrome,
{
    let k = seeds_below(syndrome, m.rows as int);
    let s = trace[trace.len() - 2];
    if any_grows(m, s, posterior, k) {
        let g = grow_all(m, s, posterior, k);
        lemma_seeds_bound(syndrome, m.rows as int);
        lemma_trace_sound(m, syndrome, posterior, trace, trace.len() - 2);
        lemma_trace_owned(m, syndrome, posterior, trace, trace.len() - 2);
        lemma_grow_all_owned(m, s, posterior, k);
        lemma_count_full(owned(m, g), m.cols as int);
        assert forall|x: int| 0 <= x < m.cols implies #[trigger] g.bit_owner[x] is Some by {
            assert(owned(m, g)[x]);
        }
        assert forall|o: int|
            0 <= o < k && #[trigger] due(g, o) && explains(m, syndrome, g, o, error) implies
            solvable(m, syndrome, g, o) by {
            lemma_all_owned_solvable(m, syndrome, g, o, error);
        }
        lemma_search_explains(m, syndrome, posterior, trace, error);
    } else {
        law_search_explains(m, syndrome, posterior, trace, error);
    }
}

/// The flags of checks and of bits agree wherever a bit is in a check.
pub open spec fn agree_along_edges(m: MatrixModel, checks: Seq<bool>, bits: Seq<bool>) -> bool {
    &&& checks.len() == m.rows
    &&& bits.len() == m.cols
    &&& forall|c: int, x: int|
        0 <= c < m.rows && 0 <= x < m.cols && #[trigger] m.entry(c, x) ==> checks[c] == bits[x]
}

/// The graph of checks and bits is connected: flags that agree along every edge agree
/// everywhere.
pub open spec fn connected(m: MatrixModel) -> bool {
    forall|checks: Seq<bool>, bits: Seq<bool>| #[trigger]
        agree_along_edges(m, checks, bits) ==> forall|c: int, x: int|
            0 <= c < m.rows && 0 <= x < m.cols ==> #[trigger] checks[c] == #[trigger] bits[x]
}

/// A cluster that a search leaves unsolved has no neighbours, if the search ends because
/// nothing grows or has as many rounds as there are columns.
proof fn lemma_unsolved_alone(
    m: MatrixModel,
    syndrome: Seq<Bit>,
    posterior: Seq<i64>,
    trace: Seq<LsdModel>,
    o: int,
    x: int,
)
    requires
        m.wf(),
        syndrome.len() == m.rows,
        lsd_trace(m, syndrome, posterior, trace),
        m.cols <= 100 || !any_grows(
            m,
            trace[trace.len() - 2],
            posterior,
            seeds_below(syndrome, m.rows as int),
        ),
        0 <= o < trace.last().owner.len(),
        trace.last().owner[o] == o,
        !trace.last().valid[o],
    ensures
        !candidate(m, trace.last(), o, x),
{
    let k = seeds_below(syndrome, m.rows as int);
    let s = trace[trace.len() - 2];
    let t = trace.last();
    lemma_seeds_bound(syndrome, m.rows as int);
    lemma_trace_sound(m, syndrome, posterior, trace, trace.len() - 2);
    lemma_trace_sound(m, syndrome, posterior, trace, trace.len() - 1);
    lemma_trace_tidy(m, syndrome, posterior, trace, trace.len() - 1);
    let g = grow_all(m, s, posterior, k);
    assert(lsd_round(m, syndrome, posterior, trace[trace.len() - 2], trace[trace.len() - 2 + 1]));
    assert(solved_below(m, syndrome, g, t, k));
    if t.active[o] {
        assert(t.active[o] == (g.active[o] && !(o < k && due(g, o) && solvable(
            m,
            syndrome,
            g,
            o,
        ))));
        assert(due(g, o));
        if !any_grows(m, s, posterior, k) {
            lemma_no_growth(m, s, posterior, k);
            assert(!due(g, o));
        } else {
            lemma_trace_owned(m, syndrome, posterior, trace, trace.len() - 2);
            lemma_grow_all_owned(m, s, posterior, k);
            lemma_count_full(owned(m, g), m.cols as int);
            if candidate(m, t, o, x) {
                assert(owned(m, g)[x]);
                let c = choose|c: int|
                    0 <= c < m.rows && t.check_owner[c] == Some(o as usize) && #[trigger] m.entry(
                        c,
                        x,
                    );
                assert(t.check_owner[c] == t.bit_owner[x]);
            }
        }
    }
}

/// On a connected graph, a syndrome that no error explains gets the zero correction, if the
/// search ends because nothing grows or has as many rounds as there are columns.
pub proof fn law_unsolvable_gives_zero(
    m: MatrixModel,
    syndrome: Seq<Bit>,
    posterior: Seq<i64>,
    trace: Seq<LsdModel>,
)
    requires
        m.wf(),
        connected(m),
        syndrome.len() == m.rows,
        is_bits(syndrome),
        lsd_trace(m, syndrome, posterior, trace),
        m.cols <= 100 || !any_grows(
            m,
            trace[trace.len() - 2],
            posterior,
            seeds_below(syndrome, m.rows as int),
        ),
        forall|y: Seq<Bit>|
            y.len() == m.cols && is_bits(y) ==> #[trigger] m.mul_mod2(y) != syndrome,
    ensures
        trace.last().correction == Seq::new(m.cols, |x: int| 0 as Bit),
{
    let t = trace.last();
    lemma_trace_sound(m, syndrome, posterior, trace, trace.len() - 1);
    lemma_trace_tidy(m, syndrome, posterior, trace, trace.len() - 1);
    if forall|c: int|
        0 <= c < m.rows ==> (#[trigger] t.check_owner[c] matches Some(o) ==> t.valid[o as int]) {
        assert forall|c: int| 0 <= c < m.rows implies #[trigger] m.mul_mod2(t.correction)[c]
            == syndrome[c] by {
            assert(t.check_owner[c] matches Some(o) ==> t.valid[o as int]);
            law_solved_checks_explained(m, syndrome, posterior, trace, c);
            assert(syndrome[c] == 0 || syndrome[c] == 1);
        }
        assert(m.mul_mod2(t.correction) =~= syndrome);
    } else {
        let c = choose|c: int|
            0 <= c < m.rows && !(#[trigger] t.check_owner[c] matches Some(o) ==> t.valid[o as int]);
        let o = t.check_owner[c]->0 as int;
        assert(t.owner[o] == o);
        let checks = Seq::new(m.rows, |d: int| t.check_owner[d] == Some(o as usize));
        let bits = Seq::new(m.cols, |x: int| t.bit_owner[x] == Some(o as usize));
        assert forall|d: int, x: int|
            0 <= d < m.rows && 0 <= x < m.cols && #[trigger] m.entry(d, x) implies checks[d]
            == bits[x] by {
            lemma_unsolved_alone(m, syndrome, posterior, trace, o, x);
        }
        assert(agree_along_edges(m, checks, bits));
        assert forall|x: int| 0 <= x < m.cols implies #[trigger] t.correction[x] == 0 by {
            assert(checks[c] == bits[x]);
            assert(t.correction[x] == 0 || t.correction[x] == 1);
        }
        assert(t.correction =~= Seq::new(m.cols, |x: int| 0 as Bit));
    }
}

} // verus!
