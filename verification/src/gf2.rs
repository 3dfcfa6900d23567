//! Linear systems over the two-element field.

use vstd::prelude::*;

use crate::matrix::Bit;

verus! {

/// The parity of the product of two bit vectors, over the places below `n`.
pub open spec fn parity(row: Seq<Bit>, y: Seq<Bit>, n: int) -> bool
    decreases n,
{
    if n <= 0 {
        false
    } else {
        parity(row, y, n - 1) != (row[n - 1] == 1 && y[n - 1] == 1)
    }
}

/// Every entry is a bit.
pub open spec fn is_bits(s: Seq<Bit>) -> bool {
    forall|i: int| 0 <= i < s.len() ==> s[i] == 0 || s[i] == 1
}

/// A rectangular table of bits.
pub open spec fn is_table(rows: Seq<Vec<Bit>>, cols: nat) -> bool {
    forall|i: int| 0 <= i < rows.len() ==> (#[trigger] rows[i]).len() == cols && is_bits(rows[i]@)
}

/// `x` solves the system: the parity of each row with `x` is its target.
pub open spec fn solves(rows: Seq<Vec<Bit>>, target: Seq<Bit>, x: Seq<Bit>) -> bool {
    forall|i: int|
        0 <= i < rows.len() ==> parity(#[trigger] rows[i]@, x, rows[i].len() as int) == (target[i]
            == 1)
}

/// Column `c` is a sum of columns before it: `y` picks `c`, nothing after it, and columns
/// that add up to zero.
pub open spec fn dependent_on_earlier(rows: Seq<Vec<Bit>>, cols: nat, c: int, y: Seq<Bit>) -> bool {
    &&& y.len() == cols
    &&& is_bits(y)
    &&& y[c] == 1
    &&& forall|k: int| c < k < cols ==> y[k] == 0
    &&& forall|i: int| 0 <= i < rows.len() ==> !parity(#[trigger] rows[i]@, y, cols as int)
}

/// `y` is orthogonal to every row.
spec fn kills(rows: Seq<Vec<Bit>>, y: Seq<Bit>, n: int) -> bool {
    forall|i: int| 0 <= i < rows.len() ==> !parity(#[trigger] rows[i]@, y, n)
}

/// The bitwise sum of two rows.
spec fn row_sum(a: Seq<Bit>, b: Seq<Bit>) -> Seq<Bit> {
    Seq::new(a.len(), |j: int| if a[j] == b[j] { 0 as Bit } else { 1 as Bit })
}

proof fn lemma_parity_sum(a: Seq<Bit>, b: Seq<Bit>, y: Seq<Bit>, n: int)
    requires
        a.len() == b.len(),
        0 <= n <= a.len(),
        is_bits(a),
        is_bits(b),
    ensures
        parity(row_sum(a, b), y, n) == (parity(a, y, n) != parity(b, y, n)),
    decreases n,
{
    if n > 0 {
        lemma_parity_sum(a, b, y, n - 1);
        assert(a[n - 1] == 0 || a[n - 1] == 1);
        assert(b[n - 1] == 0 || b[n - 1] == 1);
    }
}

proof fn lemma_parity_prefix(a: Seq<Bit>, b: Seq<Bit>, y: Seq<Bit>, z: Seq<Bit>, n: int)
    requires
        forall|k: int| 0 <= k < n ==> a[k] == b[k],
        forall|k: int| 0 <= k < n ==> y[k] == z[k],
    ensures
        parity(a, y, n) == parity(b, z, n),
    decreases n,
{
    if n > 0 {
        lemma_parity_prefix(a, b, y, z, n - 1);
    }
}

/// A product whose terms from `lo` on vanish.
pub proof fn lemma_parity_tail(a: Seq<Bit>, y: Seq<Bit>, lo: int, n: int)
    requires
        0 <= lo <= n,
        forall|k: int| lo <= k < n ==> a[k] != 1 || y[k] != 1,
    ensures
        parity(a, y, n) == parity(a, y, lo),
    decreases n - lo,
{
    if n > lo {
        lemma_parity_tail(a, y, lo, n - 1);
    }
}

/// The sum of row `p` and another row.
fn add_rows(a: &Vec<Bit>, b: &Vec<Bit>) -> (r: Vec<Bit>)
    requires
        a.len() == b.len(),
    ensures
        r@ == row_sum(a@, b@),
{
    let mut r: Vec<Bit> = Vec::new();
    let mut j: usize = 0;
    while j < a.len()
        invariant
            j <= a.len() == b.len(),
            r.len() == j,
            forall|k: int| 0 <= k < j ==> r[k] == row_sum(a@, b@)[k],
        decreases a.len() - j,
    {
        r.push(if a[j] == b[j] { 0 } else { 1 });
        j += 1;
    }
    assert(r@ =~= row_sum(a@, b@));
    r
}

/// The rows with their targets as a last column.
fn augment(matrix_rows: &Vec<Vec<Bit>>, target: &Vec<Bit>, cols: usize) -> (m: Vec<Vec<Bit>>)
    requires
        is_table(matrix_rows@, cols as nat),
        is_bits(target@),
        target.len() == matrix_rows.len(),
    ensures
        m.len() == matrix_rows.len(),
        is_table(m@, (cols + 1) as nat),
        forall|i: int| 0 <= i < m.len() ==> (#[trigger] m[i])@ == matrix_rows[i]@.push(target[i]),
{
    let mut m: Vec<Vec<Bit>> = Vec::new();
    let mut i: usize = 0;
    while i < matrix_rows.len()
        invariant
            is_table(matrix_rows@, cols as nat),
            is_bits(target@),
            target.len() == matrix_rows.len(),
            i <= matrix_rows.len(),
            m.len() == i,
            is_table(m@, (cols + 1) as nat),
            forall|k: int| 0 <= k < i ==> (#[trigger] m[k])@ == matrix_rows[k]@.push(target[k]),
        decreases matrix_rows.len() - i,
    {
        let mut row: Vec<Bit> = matrix_rows[i].clone();
        assert(row@ == matrix_rows[i as int]@);
        row.push(target[i]);
        assert(is_bits(row@)) by {
            assert(matrix_rows@[i as int].len() == cols);
        }
        m.push(row);
        i += 1;
    }
    m
}

/// Whether the first `pivots.len()` rows are reduced: row `r` is zero before its pivot
/// column, the pivot columns increase, and below them the rows are zero before `col`.
spec fn reduced(m: Seq<Vec<Bit>>, pivots: Seq<usize>, col: int) -> bool {
    &&& pivots.len() <= m.len()
    &&& forall|r: int| 0 <= r < pivots.len() ==> #[trigger] pivots[r] < col
    &&& forall|r: int, q: int| 0 <= r < q < pivots.len() ==> pivots[r] < pivots[q]
    &&& forall|r: int| 0 <= r < pivots.len() ==> (#[trigger] m[r])@[pivots[r] as int] == 1
    &&& forall|i: int, r: int|
        #![trigger m[i], pivots[r]]
        0 <= i < m.len() && 0 <= r < pivots.len() && i != r ==> m[i]@[pivots[r] as int] == 0
    &&& forall|r: int, j: int|
        #![trigger m[r]@[j]]
        0 <= r < pivots.len() && 0 <= j < pivots[r] ==> m[r]@[j] == 0
    &&& forall|i: int, j: int|
        #![trigger m[i]@[j]]
        pivots.len() <= i < m.len() && 0 <= j < col ==> m[i]@[j] == 0
}

/// Adds row `p` to every other row with a one in column `col`.
fn eliminate(m: &mut Vec<Vec<Bit>>, p: usize, col: usize, width: usize)
    requires
        is_table(old(m)@, width as nat),
        p < old(m).len(),
        col < width,
        old(m)@[p as int]@[col as int] == 1,
    ensures
        final(m).len() == old(m).len(),
        is_table(final(m)@, width as nat),
        forall|i: int|
            0 <= i < final(m).len() ==> (#[trigger] final(m)@[i])@ == (if i != p && old(m)@[i]@[col as int]
                == 1 {
                row_sum(old(m)@[i]@, old(m)@[p as int]@)
            } else {
                old(m)@[i]@
            }),
        forall|y: Seq<Bit>|
            #[trigger] kills(final(m)@, y, width as int) == kills(old(m)@, y, width as int),
{
    let ghost before = m@;
    let n: usize = m.len();
    let mut i: usize = 0;
    while i < n
        invariant
            n == m.len() == before.len(),
            is_table(before, width as nat),
            is_table(m@, width as nat),
            p < n,
            col < width,
            i <= n,
            before[p as int]@[col as int] == 1,
            forall|k: int|
                0 <= k < i ==> (#[trigger] m@[k])@ == (if k != p && before[k]@[col as int] == 1 {
                    row_sum(before[k]@, before[p as int]@)
                } else {
                    before[k]@
                }),
            forall|k: int| i <= k < n ==> #[trigger] m@[k] == before[k],
            m@[p as int]@ == before[p as int]@,
        decreases n - i,
    {
        assert(m@[i as int].len() == width && m@[p as int].len() == width);
        if i != p && m[i][col] == 1 {
            let row: Vec<Bit> = add_rows(&m[i], &m[p]);
            m.set(i, row);
        }
        i += 1;
    }
    proof {
        assert forall|y: Seq<Bit>| #[trigger] kills(m@, y, width as int) == kills(
            before,
            y,
            width as int,
        ) by {
            let w = width as int;
            let pr = before[p as int]@;
            if kills(before, y, w) {
                assert forall|k: int|
                    0 <= k < m@.len() implies !parity(#[trigger] m@[k]@, y, w) by {
                    assert(before[k].len() == width && before[p as int].len() == width);
                    assert(!parity(before[k]@, y, w));
                    assert(!parity(before[p as int]@, y, w));
                    lemma_parity_sum(before[k]@, pr, y, w);
                }
            }
            if kills(m@, y, w) {
                assert forall|k: int| 0 <= k < before.len() implies !parity(
                    #[trigger] before[k]@,
                    y,
                    w,
                ) by {
                    assert(before[k].len() == width && before[p as int].len() == width);
                    assert(!parity(m@[k]@, y, w));
                    assert(!parity(m@[p as int]@, y, w));
                    lemma_parity_sum(before[k]@, pr, y, w);
                }
            }
        }
    }
}

/// Swaps two rows.
fn swap_rows(m: &mut Vec<Vec<Bit>>, a: usize, b: usize, width: usize)
    requires
        is_table(old(m)@, width as nat),
        a < old(m).len(),
        b < old(m).len(),
    ensures
        final(m).len() == old(m).len(),
        is_table(final(m)@, width as nat),
        forall|i: int|
            0 <= i < final(m).len() ==> (#[trigger] final(m)@[i])@ == (if i == a {
                old(m)@[b as int]@
            } else if i == b {
                old(m)@[a as int]@
            } else {
                old(m)@[i]@
            }),
        forall|y: Seq<Bit>|
            #[trigger] kills(final(m)@, y, width as int) == kills(old(m)@, y, width as int),
{
    let ghost before = m@;
    let ra: Vec<Bit> = m[a].clone();
    let rb: Vec<Bit> = m[b].clone();
    assert(ra@ == before[a as int]@ && rb@ == before[b as int]@);
    assert(before[a as int].len() == width && before[b as int].len() == width);
    m.set(a, rb);
    m.set(b, ra);
    proof {
        assert forall|y: Seq<Bit>| #[trigger] kills(m@, y, width as int) == kills(
            before,
            y,
            width as int,
        ) by {
            let w = width as int;
            if kills(before, y, w) {
                assert forall|k: int|
                    0 <= k < m@.len() implies !parity(#[trigger] m@[k]@, y, w) by {
                    assert(!parity(before[a as int]@, y, w));
                    assert(!parity(before[b as int]@, y, w));
                    assert(!parity(before[k]@, y, w));
                }
            }
            if kills(m@, y, w) {
                assert forall|k: int| 0 <= k < before.len() implies !parity(
                    #[trigger] before[k]@,
                    y,
                    w,
                ) by {
                    assert(!parity(m@[a as int]@, y, w));
                    assert(!parity(m@[b as int]@, y, w));
                    assert(!parity(m@[k]@, y, w));
                }
            }
        }
    }
}

/// Brings the rows into reduced form over the columns below `cols`. Returns the pivot
/// columns, one for each of the first rows.
fn reduce(m: &mut Vec<Vec<Bit>>, cols: usize, width: usize) -> (pivots: Vec<usize>)
    requires
        is_table(old(m)@, width as nat),
        cols <= width,
    ensures
        final(m).len() == old(m).len(),
        is_table(final(m)@, width as nat),
        reduced(final(m)@, pivots@, cols as int),
        forall|y: Seq<Bit>|
            #[trigger] kills(final(m)@, y, width as int) == kills(old(m)@, y, width as int),
{
    let ghost orig = m@;
    let rows: usize = m.len();
    let mut pivots: Vec<usize> = Vec::new();
    let mut col: usize = 0;
    while pivots.len() < rows && col < cols
        invariant
            rows == m.len() == orig.len(),
            is_table(m@, width as nat),
            cols <= width,
            col <= cols,
            reduced(m@, pivots@, col as int),
            forall|y: Seq<Bit>|
                #[trigger] kills(m@, y, width as int) == kills(orig, y, width as int),
        decreases cols - col,
    {
        let p: usize = pivots.len();
        let ghost start = m@;
        let mut pivot: usize = p;
        assert(m@[p as int].len() == width);
        while pivot < rows && m[pivot][col] == 0
            invariant
                p <= pivot <= rows,
                rows == m.len(),
                m@ == start,
                is_table(m@, width as nat),
                col < cols <= width,
                forall|i: int| p <= i < pivot ==> (#[trigger] m@[i])@[col as int] == 0,
            decreases rows - pivot,
        {
            pivot += 1;
            assert(pivot < rows ==> m@[pivot as int].len() == width);
        }
        if pivot < rows {
            proof {
                assert(is_bits(start[pivot as int]@));
                assert(start[pivot as int].len() == width);
                assert(start[pivot as int]@[col as int] == 1);
            }
            swap_rows(m, p, pivot, width);
            let ghost mid = m@;
            assert(mid[p as int]@ == start[pivot as int]@);
            eliminate(m, p, col, width);
            let ghost old_pivots = pivots@;
            pivots.push(col);
            proof {
                assert(reduced(m@, pivots@, col + 1)) by {
                    lemma_reduced_step(
                        start,
                        mid,
                        m@,
                        old_pivots,
                        p as int,
                        pivot as int,
                        col as int,
                        width as nat,
                    );
                    assert(pivots@ =~= old_pivots.push(col));
                }
            }
        } else {
            proof {
                assert forall|i: int, j: int|
                    #![trigger m@[i]@[j]]
                    pivots.len() <= i < m@.len() && 0 <= j < col + 1 implies m@[i]@[j] == 0 by {
                    if j == col {
                        assert(start[i]@[col as int] == 0);
                    }
                }
                assert(reduced(m@, pivots@, col + 1));
            }
        }
        col += 1;
    }
    proof {
        assert forall|i: int, j: int|
            #![trigger m@[i]@[j]]
            pivots.len() <= i < m@.len() && 0 <= j < cols implies m@[i]@[j] == 0 by {
            if col < cols {
                assert(pivots.len() >= rows);
            }
        }
        assert(reduced(m@, pivots@, cols as int));
    }
    pivots
}

proof fn lemma_reduced_step(
    start: Seq<Vec<Bit>>,
    mid: Seq<Vec<Bit>>,
    end: Seq<Vec<Bit>>,
    pivots: Seq<usize>,
    p: int,
    q: int,
    col: int,
    width: nat,
)
    requires
        is_table(start, width),
        is_table(mid, width),
        is_table(end, width),
        start.len() == mid.len() == end.len(),
        reduced(start, pivots, col),
        p == pivots.len(),
        p <= q < start.len(),
        0 <= col < width,
        col <= usize::MAX,
        start[q]@[col] == 1,
        forall|i: int|
            0 <= i < mid.len() ==> (#[trigger] mid[i])@ == (if i == p {
                start[q]@
            } else if i == q {
                start[p]@
            } else {
                start[i]@
            }),
        forall|i: int|
            0 <= i < end.len() ==> (#[trigger] end[i])@ == (if i != p && mid[i]@[col] == 1 {
                row_sum(mid[i]@, mid[p]@)
            } else {
                mid[i]@
            }),
    ensures
        reduced(end, pivots.push(col as usize), col + 1),
{
    let np = pivots.push(col as usize);
    assert(mid[p]@ == start[q]@);
    assert(end[p]@ == mid[p]@);
    // The pivot row is zero before `col`, so adding it changes no earlier column.
    assert forall|j: int| 0 <= j < col implies mid[p]@[j] == 0 by {
        assert(start[q]@[j] == 0);
    }
    assert forall|i: int, j: int| 0 <= i < end.len() && 0 <= j < col implies #[trigger] end[i]@[j]
        == mid[i]@[j] by {
        assert(is_bits(mid[i]@) && mid[i].len() == width);
        assert(mid[p].len() == width);
        assert(end[i]@ == end[i]@);
    }
    assert forall|i: int| 0 <= i < end.len() && i != p implies (#[trigger] end[i])@[col] == 0 by {
        assert(is_bits(mid[i]@) && mid[i].len() == width);
    }
    assert forall|r: int| 0 <= r < np.len() implies (#[trigger] end[r])@[np[r] as int] == 1 by {
        if r < p {
            assert(mid[r]@ == start[r]@);
            assert(end[r]@[pivots[r] as int] == mid[r]@[pivots[r] as int]);
        }
    }
    assert forall|i: int, r: int|
        #![trigger end[i], np[r]]
        0 <= i < end.len() && 0 <= r < np.len() && i != r implies end[i]@[np[r] as int] == 0 by {
        if r < p {
            let c = pivots[r] as int;
            assert(np[r] == pivots[r]);
            assert(end[i]@[c] == mid[i]@[c]);
            if i == p {
                assert(start[q]@[c] == 0);
            } else if i == q {
                assert(start[p]@[c] == 0);
            } else {
                assert(start[i]@[c] == 0);
            }
        }
    }
    assert forall|r: int, j: int|
        #![trigger end[r]@[j]]
        0 <= r < np.len() && 0 <= j < np[r] implies end[r]@[j] == 0 by {
        if r < p {
            assert(np[r] == pivots[r]);
            assert(end[r]@[j] == mid[r]@[j]);
            assert(mid[r]@ == start[r]@);
            assert(start[r]@[j] == 0);
        }
    }
    assert forall|i: int, j: int|
        #![trigger end[i]@[j]]
        np.len() <= i < end.len() && 0 <= j < col + 1 implies end[i]@[j] == 0 by {
        if j < col {
            assert(end[i]@[j] == mid[i]@[j]);
            if i == q {
                assert(start[p]@[j] == 0);
            } else {
                assert(start[i]@[j] == 0);
            }
        } else {
            assert(end[i]@[col] == 0);
        }
    }
}

/// `x` is the answer to the system: it solves it, and variables that do not have to be set
/// are zero, for it picks only columns that are no sum of columns before them.
pub open spec fn is_answer(rows: Seq<Vec<Bit>>, target: Seq<Bit>, cols: nat, x: Seq<Bit>) -> bool {
    &&& x.len() == cols
    &&& is_bits(x)
    &&& solves(rows, target, x)
    &&& forall|c: int, y: Seq<Bit>|
        0 <= c < cols && x[c] == 1 ==> !#[trigger] dependent_on_earlier(rows, cols, c, y)
}

/// The number of columns of a table.
pub open spec fn width_of(rows: Seq<Vec<Bit>>) -> nat {
    if rows.len() == 0 {
        0
    } else {
        rows[0]@.len()
    }
}

/// The table is rectangular and has one target for each row.
pub open spec fn is_system(rows: Seq<Vec<Bit>>, target: Seq<Bit>) -> bool {
    &&& is_table(rows, width_of(rows))
    &&& target.len() == rows.len()
    &&& is_bits(target)
}

/// Every entry is zero.
pub open spec fn no_ones(s: Seq<Bit>) -> bool {
    forall|i: int| 0 <= i < s.len() ==> s[i] == 0
}

/// The entries of two vectors of bits added up.
pub open spec fn bit_sum(a: Seq<Bit>, b: Seq<Bit>) -> Seq<Bit> {
    Seq::new(a.len(), |j: int| if a[j] == b[j] { 0 as Bit } else { 1 as Bit })
}

proof fn lemma_parity_of_sum(row: Seq<Bit>, a: Seq<Bit>, b: Seq<Bit>, n: int)
    requires
        is_bits(a),
        is_bits(b),
        n <= a.len() == b.len(),
    ensures
        parity(row, bit_sum(a, b), n) == (parity(row, a, n) != parity(row, b, n)),
    decreases n,
{
    if n > 0 {
        lemma_parity_of_sum(row, a, b, n - 1);
    }
}

/// A system has one answer at most.
pub proof fn law_answer_unique(
    rows: Seq<Vec<Bit>>,
    target: Seq<Bit>,
    cols: nat,
    x: Seq<Bit>,
    y: Seq<Bit>,
)
    requires
        is_table(rows, cols),
        is_answer(rows, target, cols, x),
        is_answer(rows, target, cols, y),
    ensures
        x == y,
{
    lemma_same_from(rows, target, cols, x, y, 0);
    assert(x =~= y);
}

proof fn lemma_same_from(
    rows: Seq<Vec<Bit>>,
    target: Seq<Bit>,
    cols: nat,
    x: Seq<Bit>,
    y: Seq<Bit>,
    c: int,
)
    requires
        is_table(rows, cols),
        is_answer(rows, target, cols, x),
        is_answer(rows, target, cols, y),
        0 <= c <= cols,
    ensures
        forall|k: int| c <= k < cols ==> x[k] == y[k],
    decreases cols - c,
{
    if c < cols {
        lemma_same_from(rows, target, cols, x, y, c + 1);
        if x[c] != y[c] {
            let d = bit_sum(x, y);
            assert forall|i: int| 0 <= i < rows.len() implies !parity(
                #[trigger] rows[i]@,
                d,
                cols as int,
            ) by {
                assert(rows[i].len() == cols);
                lemma_parity_of_sum(rows[i]@, x, y, cols as int);
            }
            assert(dependent_on_earlier(rows, cols, c, d));
        }
    }
}

/// The answer is linear in the target: the answers to two targets add up to the answer to
/// their sum, and the answer to the zero target is zero.
pub proof fn law_answer_linear(
    rows: Seq<Vec<Bit>>,
    target1: Seq<Bit>,
    target2: Seq<Bit>,
    cols: nat,
    x1: Seq<Bit>,
    x2: Seq<Bit>,
)
    requires
        is_table(rows, cols),
        target1.len() == rows.len(),
        target2.len() == rows.len(),
        is_bits(target1),
        is_bits(target2),
        is_answer(rows, target1, cols, x1),
        is_answer(rows, target2, cols, x2),
    ensures
        is_answer(rows, bit_sum(target1, target2), cols, bit_sum(x1, x2)),
        no_ones(target1) ==> no_ones(x1),
{
    let x = bit_sum(x1, x2);
    assert forall|i: int| 0 <= i < rows.len() implies parity(
        #[trigger] rows[i]@,
        x,
        rows[i].len() as int,
    ) == (bit_sum(target1, target2)[i] == 1) by {
        assert(rows[i].len() == cols);
        lemma_parity_of_sum(rows[i]@, x1, x2, cols as int);
        assert(target1[i] == 0 || target1[i] == 1);
        assert(target2[i] == 0 || target2[i] == 1);
    }
    assert forall|c: int, y: Seq<Bit>|
        0 <= c < cols && x[c] == 1 implies !#[trigger] dependent_on_earlier(rows, cols, c, y) by {
        assert(x1[c] == 1 || x2[c] == 1);
    }
    if no_ones(target1) {
        let zero = bit_sum(x1, x1);
        assert forall|i: int| 0 <= i < rows.len() implies parity(
            #[trigger] rows[i]@,
            zero,
            rows[i].len() as int,
        ) == (target1[i] == 1) by {
            assert(rows[i].len() == cols);
            lemma_parity_of_sum(rows[i]@, x1, x1, cols as int);
        }
        law_answer_unique(rows, target1, cols, x1, zero);
    }
}

/// Gaussian elimination over the two-element field: the answer to the system whose rows and
/// targets are given, if there is one. Without rows or columns every target that is zero has
/// the empty answer.
pub fn solve_system_rows(matrix_rows: &Vec<Vec<Bit>>, target: &Vec<Bit>) -> (r: Option<Vec<Bit>>)
    requires
        width_of(matrix_rows@) > 0 ==> is_system(matrix_rows@, target@),
    ensures
        is_system(matrix_rows@, target@) ==> match r {
            Some(x) => is_answer(matrix_rows@, target@, width_of(matrix_rows@), x@),
            None => matrix_rows.len() > 0 && forall|x: Seq<Bit>|
                x.len() == matrix_rows[0].len() && is_bits(x) ==> !#[trigger] solves(
                    matrix_rows@,
                    target@,
                    x,
                ),
        },
        width_of(matrix_rows@) == 0 ==> match r {
            Some(x) => no_ones(target@) && x.len() == 0,
            None => !no_ones(target@),
        },
{
    let rows: usize = matrix_rows.len();
    if rows == 0 || matrix_rows[0].len() == 0 {
        let mut k: usize = 0;
        while k < target.len()
            invariant
                rows == matrix_rows.len(),
                width_of(matrix_rows@) == 0,
                k <= target.len(),
                forall|i: int| 0 <= i < k ==> target[i] == 0,
            decreases target.len() - k,
        {
            if target[k] != 0 {
                proof {
                    if is_system(matrix_rows@, target@) {
                        assert(matrix_rows@[k as int].len() == 0);
                        assert forall|x: Seq<Bit>|
                            x.len() == matrix_rows[0].len() && is_bits(x) implies !#[trigger] solves(
                            matrix_rows@,
                            target@,
                            x,
                        ) by {
                            assert(!parity(matrix_rows@[k as int]@, x, 0));
                        }
                    }
                }
                return None;
            }
            k += 1;
        }
        let x: Vec<Bit> = Vec::new();
        proof {
            if is_system(matrix_rows@, target@) {
                assert forall|i: int| 0 <= i < rows implies parity(
                    #[trigger] matrix_rows@[i]@,
                    x@,
                    matrix_rows@[i].len() as int,
                ) == (target@[i] == 1) by {
                    assert(matrix_rows@[i].len() == 0);
                }
                assert(is_answer(matrix_rows@, target@, 0, x@));
            }
        }
        return Some(x);
    }
    let cols: usize = matrix_rows[0].len();
    let mut m: Vec<Vec<Bit>> = augment(matrix_rows, target, cols);
    let ghost aug = m@;
    assert(m@[0].len() == cols + 1);
    let width: usize = m[0].len();
    let pivots: Vec<usize> = reduce(&mut m, cols, width);
    proof {
        // A solution extended by a one is orthogonal to every augmented row.
        assert forall|x: Seq<Bit>| x.len() == cols implies #[trigger] solves(
            matrix_rows@,
            target@,
            x,
        ) == kills(m@, x.push(1), width as int) by {
            let y = x.push(1);
            assert forall|i: int| 0 <= i < rows implies parity(#[trigger] aug[i]@, y, width as int)
                == (parity(matrix_rows[i]@, x, cols as int) != (target[i] == 1)) by {
                assert(matrix_rows@[i].len() == cols);
                lemma_parity_prefix(aug[i]@, matrix_rows[i]@, y, x, cols as int);
            }
            if solves(matrix_rows@, target@, x) {
                assert forall|i: int| 0 <= i < aug.len() implies !parity(
                    #[trigger] aug[i]@,
                    y,
                    width as int,
                ) by {
                    assert(matrix_rows@[i].len() == cols);
                    assert(parity(matrix_rows@[i]@, x, cols as int) == (target[i] == 1));
                }
                assert(kills(aug, y, width as int));
            }
            if kills(m@, y, width as int) {
                assert(kills(aug, y, width as int));
                assert forall|i: int| 0 <= i < rows implies parity(
                    #[trigger] matrix_rows@[i]@,
                    x,
                    matrix_rows@[i].len() as int,
                ) == (target@[i] == 1) by {
                    assert(!parity(aug[i]@, y, width as int));
                    assert(matrix_rows@[i].len() == cols);
                }
            }
        }
    }
    let mut i: usize = pivots.len();
    while i < rows
        invariant
            pivots.len() <= i <= rows,
            rows == m.len() == matrix_rows.len(),
            rows > 0,
            cols > 0,
            cols == matrix_rows[0].len(),
            width == cols + 1,
            is_table(m@, width as nat),
            reduced(m@, pivots@, cols as int),
            forall|x: Seq<Bit>|
                x.len() == cols ==> #[trigger] solves(matrix_rows@, target@, x) == kills(
                    m@,
                    x.push(1),
                    width as int,
                ),
            forall|k: int| pivots.len() <= k < i ==> (#[trigger] m@[k])@[cols as int] == 0,
        decreases rows - i,
    {
        assert(m@[i as int].len() == width);
        if m[i][cols] != 0 {
            proof {
                assert forall|x: Seq<Bit>| x.len() == matrix_rows[0].len() && is_bits(
                    x,
                ) implies !#[trigger] solves(matrix_rows@, target@, x) by {
                    let y = x.push(1);
                    assert(is_bits(m@[i as int]@));
                    lemma_parity_tail(m@[i as int]@, y, 0, cols as int);
                    assert(parity(m@[i as int]@, y, width as int));
                }
            }
            return None;
        }
        i += 1;
    }
    let mut x: Vec<Bit> = vec![0; cols];
    let mut r: usize = 0;
    while r < pivots.len()
        invariant
            r <= pivots.len(),
            pivots.len() <= m.len(),
            x.len() == cols,
            width == cols + 1,
            is_table(m@, width as nat),
            reduced(m@, pivots@, cols as int),
            is_bits(x@),
            forall|q: int| 0 <= q < r ==> x@[#[trigger] pivots@[q] as int] == m@[q]@[cols as int],
            forall|j: int|
                0 <= j < cols && x@[j] == 1 ==> exists|q: int| 0 <= q < r && #[trigger] pivots@[q] == j,
        decreases pivots.len() - r,
    {
        assert(m@[r as int].len() == width);
        assert(pivots@[r as int] < cols);
        assert(is_bits(m@[r as int]@));
        let c: usize = pivots[r];
        let ghost before = x@;
        x.set(c, m[r][cols]);
        proof {
            assert forall|j: int| 0 <= j < cols && x@[j] == 1 implies exists|q: int|
                0 <= q < r + 1 && #[trigger] pivots@[q] == j by {
                if j == c {
                    assert(pivots@[r as int] == j);
                } else {
                    assert(before[j] == 1);
                    let q = choose|q: int| 0 <= q < r && #[trigger] pivots@[q] == j;
                    assert(pivots@[q] == j);
                }
            }
        }
        r += 1;
    }
    proof {
        let y = x@.push(1);
        assert forall|k: int|
            0 <= k < m@.len() implies !parity(#[trigger] m@[k]@, y, width as int) by {
            assert(m@[k].len() == width && is_bits(m@[k]@));
            if k < pivots.len() {
                let c = pivots@[k] as int;
                assert forall|j: int|
                    0 <= j < cols && j != c implies m@[k]@[j] != 1 || y[j] != 1 by {
                    if y[j] == 1 {
                        let q = choose|q: int| 0 <= q < pivots.len() && #[trigger] pivots@[q] == j;
                        assert(q != k);
                        assert(m@[k]@[pivots@[q] as int] == 0);
                    }
                }
                lemma_parity_tail(m@[k]@, y, c + 1, cols as int);
                lemma_parity_tail(m@[k]@, y, 0, c);
                assert(x@[pivots@[k] as int] == m@[k]@[cols as int]);
                assert(m@[k]@[c] == 1);
            } else {
                lemma_parity_tail(m@[k]@, y, 0, cols as int);
            }
        }
        assert(kills(m@, y, width as int));
        assert(solves(matrix_rows@, target@, x@));
        assert forall|c: int, z: Seq<Bit>|
            0 <= c < x.len() && x[c] == 1 implies !#[trigger] dependent_on_earlier(
            matrix_rows@,
            x.len() as nat,
            c,
            z,
        ) by {
            if dependent_on_earlier(matrix_rows@, x.len() as nat, c, z) {
                let q = choose|q: int| 0 <= q < pivots.len() && #[trigger] pivots@[q] == c;
                let w = z.push(0);
                assert forall|k: int| 0 <= k < aug.len() implies !parity(
                    #[trigger] aug[k]@,
                    w,
                    width as int,
                ) by {
                    assert(matrix_rows@[k].len() == cols);
                    lemma_parity_prefix(aug[k]@, matrix_rows[k]@, w, z, cols as int);
                    assert(!parity(matrix_rows@[k]@, z, cols as int));
                }
                assert(kills(aug, w, width as int));
                assert(kills(m@, w, width as int));
                assert(!parity(m@[q]@, w, width as int));
                assert(m@[q].len() == width);
                lemma_parity_tail(m@[q]@, w, c + 1, width as int);
                lemma_parity_tail(m@[q]@, w, 0, c);
                assert(m@[q]@[c] == 1);
            }
        }
    }
    Some(x)
}

} // verus!
