//! Sparse binary matrices, stored by rows and by columns at once.
//!
//! Entry `e` in row order and entry `f` in column order are tied by two maps that are
//! inverse to each other, so that a message kept in one order is found in the other.

use vstd::prelude::*;

verus! {

/// A detector or error bit.
pub type Bit = u8;

/// What a matrix holds: its shape, both compressed forms and the maps between them.
#[verifier::ext_equal]
pub struct MatrixModel {
    pub rows: nat,
    pub cols: nat,
    pub row_ptr: Seq<usize>,
    pub row_idx: Seq<usize>,
    pub col_ptr: Seq<usize>,
    pub col_idx: Seq<usize>,
    pub csr_to_csc: Seq<usize>,
    pub csc_to_csr: Seq<usize>,
}

/// `ptr` and `idx` are a compressed form with `outer` slices of strictly increasing
/// indices below `inner`.
pub open spec fn compressed(outer: nat, inner: nat, ptr: Seq<usize>, idx: Seq<usize>) -> bool {
    &&& ptr.len() == outer + 1
    &&& ptr[0] == 0
    &&& ptr[outer as int] == idx.len()
    &&& forall|i: int, j: int| 0 <= i <= j <= outer ==> ptr[i] <= ptr[j]
    &&& forall|i: int, e1: int, e2: int|
        #![trigger in_slice(ptr, i, e1), in_slice(ptr, i, e2)]
        0 <= i < outer && in_slice(ptr, i, e1) && in_slice(ptr, i, e2) && e1 < e2 ==> idx[e1]
            < idx[e2]
    &&& forall|e: int| 0 <= e < idx.len() ==> idx[e] < inner
}

/// Entry `e` belongs to slice `i`.
pub open spec fn in_slice(ptr: Seq<usize>, i: int, e: int) -> bool {
    ptr[i] <= e < ptr[i + 1]
}

/// The values of slice `i`.
pub open spec fn slice_of<T>(ptr: Seq<usize>, values: Seq<T>, i: int) -> Seq<T> {
    values.subrange(ptr[i] as int, ptr[i + 1] as int)
}

/// `(ptr2, idx2, ids2)` is the compressed form by columns of the matrix whose compressed
/// form by rows is `(ptr, idx, ids)`: every entry of one is an entry of the other, at the
/// same place and with the same value.
pub open spec fn same_entries(
    rows: nat,
    cols: nat,
    ptr: Seq<usize>,
    idx: Seq<usize>,
    ids: Seq<usize>,
    ptr2: Seq<usize>,
    idx2: Seq<usize>,
    ids2: Seq<usize>,
) -> bool {
    &&& idx2.len() == idx.len()
    &&& ids2.len() == ids.len()
    &&& forall|c: int, e: int|
        #![trigger in_slice(ptr, c, e)]
        0 <= c < rows && in_slice(ptr, c, e) ==> exists|f: int|
            #![trigger ids2[f]]
            in_slice(ptr2, idx[e] as int, f) && idx2[f] == c && ids2[f] == ids[e]
    &&& forall|v: int, f: int|
        #![trigger in_slice(ptr2, v, f)]
        0 <= v < cols && in_slice(ptr2, v, f) ==> exists|e: int|
            #![trigger ids[e]]
            in_slice(ptr, idx2[f] as int, e) && idx[e] == v && ids[e] == ids2[f]
}

impl MatrixModel {
    /// Both compressed forms are well formed and describe the same entries.
    pub open spec fn wf(self) -> bool {
        &&& compressed(self.rows, self.cols, self.row_ptr, self.row_idx)
        &&& compressed(self.cols, self.rows, self.col_ptr, self.col_idx)
        &&& self.row_idx.len() == self.col_idx.len()
        &&& self.row_idx.len() <= usize::MAX / 2
        &&& self.rows < usize::MAX
        &&& self.cols < usize::MAX
        &&& self.csr_to_csc.len() == self.row_idx.len()
        &&& self.csc_to_csr.len() == self.row_idx.len()
        &&& forall|f: int|
            0 <= f < self.nnz() ==> {
                let e = #[trigger] self.csc_to_csr[f] as int;
                &&& 0 <= e < self.nnz()
                &&& self.csr_to_csc[e] == f
                &&& in_slice(self.row_ptr, self.col_idx[f] as int, e)
            }
        &&& forall|e: int|
            0 <= e < self.nnz() ==> {
                let f = #[trigger] self.csr_to_csc[e] as int;
                &&& 0 <= f < self.nnz()
                &&& self.csc_to_csr[f] == e
                &&& in_slice(self.col_ptr, self.row_idx[e] as int, f)
            }
    }

    /// The number of entries.
    pub open spec fn nnz(self) -> nat {
        self.row_idx.len()
    }

    /// The columns of the entries of row `i`, in increasing order.
    pub open spec fn row(self, i: int) -> Seq<usize> {
        slice_of(self.row_ptr, self.row_idx, i)
    }

    /// The rows of the entries of column `j`, in increasing order.
    pub open spec fn col(self, j: int) -> Seq<usize> {
        slice_of(self.col_ptr, self.col_idx, j)
    }

    /// Row `i` has an entry in column `j`.
    pub open spec fn entry(self, i: int, j: int) -> bool {
        exists|k: int| 0 <= k < self.row(i).len() && #[trigger] self.row(i)[k] == j
    }

    /// The product with `v` modulo two.
    pub open spec fn mul_mod2(self, v: Seq<Bit>) -> Seq<Bit> {
        Seq::new(self.rows, |i: int| (dot(self.row(i), v) % 2) as Bit)
    }
}

/// The sum of the values of `v` at the places `idx`.
pub open spec fn dot(idx: Seq<usize>, v: Seq<Bit>) -> int
    decreases idx.len(),
{
    if idx.len() == 0 {
        0
    } else {
        dot(idx.drop_last(), v) + v[idx.last() as int]
    }
}

/// A sparse matrix over the two-element field.
#[derive(Debug)]
pub struct SparseBitMatrix {
    pub rows: usize,
    pub cols: usize,
    pub row_ptr: Vec<usize>,
    pub row_idx: Vec<usize>,
    pub col_ptr: Vec<usize>,
    pub col_idx: Vec<usize>,
    pub csr_to_csc: Vec<usize>,
    pub csc_to_csr: Vec<usize>,
}

impl View for SparseBitMatrix {
    type V = MatrixModel;

    open spec fn view(&self) -> MatrixModel {
        MatrixModel {
            rows: self.rows as nat,
            cols: self.cols as nat,
            row_ptr: self.row_ptr@,
            row_idx: self.row_idx@,
            col_ptr: self.col_ptr@,
            col_idx: self.col_idx@,
            csr_to_csc: self.csr_to_csc@,
            csc_to_csr: self.csc_to_csr@,
        }
    }
}

/// `sprs::CsMat::new` followed by `CsMat::to_csc` and `CsMat::into_raw_storage`: the
/// compressed form by columns of the matrix given by rows, with the value of each entry
/// carried along.
#[verifier::external_body]
fn sprs_to_csc(
    rows: usize,
    cols: usize,
    row_ptr: &Vec<usize>,
    row_idx: &Vec<usize>,
    ids: &Vec<usize>,
) -> (r: (Vec<usize>, Vec<usize>, Vec<usize>))
    requires
        compressed(rows as nat, cols as nat, row_ptr@, row_idx@),
        ids.len() == row_idx.len(),
        row_idx.len() <= usize::MAX / 2,
        rows < usize::MAX,
        cols < usize::MAX,
    ensures
        compressed(cols as nat, rows as nat, r.0@, r.1@),
        same_entries(rows as nat, cols as nat, row_ptr@, row_idx@, ids@, r.0@, r.1@, r.2@),
{
    sprs::CsMat::new((rows, cols), row_ptr.clone(), row_idx.clone(), ids.clone())
        .to_csc()
        .into_raw_storage()
}

/// Every entry of a compressed form belongs to a slice.
pub proof fn lemma_slice_exists(outer: nat, inner: nat, ptr: Seq<usize>, idx: Seq<usize>, e: int)
    requires
        compressed(outer, inner, ptr, idx),
        0 <= e < idx.len(),
    ensures
        exists|i: int| 0 <= i < outer && #[trigger] in_slice(ptr, i, e),
{
    lemma_slice_exists_below(outer, inner, ptr, idx, e, outer);
}

proof fn lemma_slice_exists_below(
    outer: nat,
    inner: nat,
    ptr: Seq<usize>,
    idx: Seq<usize>,
    e: int,
    n: nat,
)
    requires
        compressed(outer, inner, ptr, idx),
        0 <= e < ptr[n as int],
        n <= outer,
    ensures
        exists|i: int| 0 <= i < n && #[trigger] in_slice(ptr, i, e),
    decreases n,
{
    if n > 0 {
        let m = (n - 1) as nat;
        if e < ptr[m as int] {
            lemma_slice_exists_below(outer, inner, ptr, idx, e, m);
            let i = choose|i: int| 0 <= i < m && #[trigger] in_slice(ptr, i, e);
            assert(in_slice(ptr, i, e));
        } else {
            assert(in_slice(ptr, m as int, e));
        }
    }
}

/// An entry belongs to one slice only.
pub proof fn lemma_slice_unique(
    outer: nat,
    inner: nat,
    ptr: Seq<usize>,
    idx: Seq<usize>,
    i: int,
    j: int,
    e: int,
)
    requires
        compressed(outer, inner, ptr, idx),
        0 <= i < outer,
        0 <= j < outer,
        in_slice(ptr, i, e),
        in_slice(ptr, j, e),
    ensures
        i == j,
{
    if i < j {
        assert(ptr[i + 1] <= ptr[j]);
    } else if j < i {
        assert(ptr[j + 1] <= ptr[i]);
    }
}

impl SparseBitMatrix {
    /// The matrix with the given rows, each a strictly increasing list of columns, in the
    /// compressed form by rows.
    pub fn new(rows: usize, cols: usize, row_ptr: Vec<usize>, row_idx: Vec<usize>) -> (m: Self)
        requires
            compressed(rows as nat, cols as nat, row_ptr@, row_idx@),
            row_idx.len() <= usize::MAX / 2,
            rows < usize::MAX,
            cols < usize::MAX,
        ensures
            m@.wf(),
            m@.rows == rows,
            m@.cols == cols,
            m@.row_ptr == row_ptr@,
            m@.row_idx == row_idx@,
    {
        let nnz: usize = row_idx.len();
        let mut ids: Vec<usize> = Vec::new();
        let mut i: usize = 0;
        while i < nnz
            invariant
                i <= nnz,
                ids.len() == i,
                forall|k: int| 0 <= k < i ==> ids[k] == k,
            decreases nnz - i,
        {
            ids.push(i);
            i += 1;
        }
        let (col_ptr, col_idx, csc_to_csr) = sprs_to_csc(rows, cols, &row_ptr, &row_idx, &ids);
        let mut csr_to_csc: Vec<usize> = vec![0; nnz];
        let ghost rn = rows as nat;
        let ghost cn = cols as nat;
        proof {
            assert forall|f: int| 0 <= f < nnz implies {
                let e = #[trigger] csc_to_csr@[f] as int;
                &&& 0 <= e < nnz
                &&& in_slice(row_ptr@, col_idx@[f] as int, e)
                &&& in_slice(col_ptr@, row_idx@[e] as int, f)
            } by {
                lemma_slice_exists(cn, rn, col_ptr@, col_idx@, f);
                let v = choose|v: int| 0 <= v < cn && #[trigger] in_slice(col_ptr@, v, f);
                let e = choose|e: int|
                    #![trigger ids@[e]]
                    in_slice(row_ptr@, col_idx@[f] as int, e) && row_idx@[e] == v && ids@[e]
                        == csc_to_csr@[f];
                assert(row_ptr@[col_idx@[f] as int + 1] <= row_ptr@[rn as int]);
            }
        }
        let mut f: usize = 0;
        while f < nnz
            invariant
                f <= nnz,
                nnz == row_idx.len(),
                csr_to_csc.len() == nnz,
                csc_to_csr.len() == nnz,
                compressed(rn, cn, row_ptr@, row_idx@),
                compressed(cn, rn, col_ptr@, col_idx@),
                col_idx.len() == nnz,
                forall|g: int| 0 <= g < nnz ==> {
                    let e = #[trigger] csc_to_csr@[g] as int;
                    &&& 0 <= e < nnz
                    &&& in_slice(row_ptr@, col_idx@[g] as int, e)
                    &&& in_slice(col_ptr@, row_idx@[e] as int, g)
                },
                forall|g: int| 0 <= g < f ==> csr_to_csc@[(#[trigger] csc_to_csr@[g]) as int] == g,
            decreases nnz - f,
        {
            let e: usize = csc_to_csr[f];
            proof {
                assert forall|g: int| 0 <= g < f implies #[trigger] csc_to_csr@[g] != e by {
                    if csc_to_csr@[g] == e {
                        let v = row_idx@[e as int] as int;
                        assert(in_slice(col_ptr@, v, g));
                        assert(in_slice(col_ptr@, v, f as int));
                        assert(col_idx@[g] < col_idx@[f as int]);
                        lemma_slice_unique(
                            rn, cn, row_ptr@, row_idx@,
                            col_idx@[g] as int, col_idx@[f as int] as int, e as int,
                        );
                    }
                }
            }
            csr_to_csc.set(e, f);
            f += 1;
        }
        proof {
            assert forall|e: int| 0 <= e < nnz implies {
                let f = #[trigger] csr_to_csc@[e] as int;
                &&& 0 <= f < nnz
                &&& csc_to_csr@[f] == e
                &&& in_slice(col_ptr@, row_idx@[e] as int, f)
            } by {
                lemma_slice_exists(rn, cn, row_ptr@, row_idx@, e);
                let c = choose|c: int| 0 <= c < rn && #[trigger] in_slice(row_ptr@, c, e);
                let f = choose|f: int|
                    #![trigger csc_to_csr@[f]]
                    in_slice(col_ptr@, row_idx@[e] as int, f) && col_idx@[f] == c && csc_to_csr@[f]
                        == ids@[e];
                assert(col_ptr@[row_idx@[e] as int + 1] <= col_ptr@[cn as int]);
                assert(csr_to_csc@[csc_to_csr@[f] as int] == f);
            }
        }
        SparseBitMatrix { rows, cols, row_ptr, row_idx, col_ptr, col_idx, csr_to_csc, csc_to_csr }
    }

    /// The matrix whose entries are the nonzero places of `dense`, a list of rows of
    /// `cols` bits each.
    pub fn from_dense(dense: &Vec<Vec<Bit>>, cols: usize) -> (m: Self)
        requires
            forall|i: int| 0 <= i < dense.len() ==> (#[trigger] dense[i]).len() == cols,
            dense.len() < usize::MAX,
            cols < usize::MAX,
            dense.len() * cols <= usize::MAX / 2,
        ensures
            m@.wf(),
            m@.rows == dense.len(),
            m@.cols == cols,
            forall|i: int, j: int|
                0 <= i < dense.len() && 0 <= j < cols ==> (#[trigger] m@.entry(i, j) <==> dense[i][j] != 0),
    {
        let rows: usize = dense.len();
        let mut row_ptr: Vec<usize> = Vec::new();
        row_ptr.push(0);
        let mut row_idx: Vec<usize> = Vec::new();
        let mut i: usize = 0;
        while i < rows
            invariant
                i <= rows,
                rows == dense.len(),
                forall|r: int| 0 <= r < dense.len() ==> (#[trigger] dense[r]).len() == cols,
                dense.len() * cols <= usize::MAX / 2,
                row_idx.len() <= i * cols,
                compressed(i as nat, cols as nat, row_ptr@, row_idx@),
                forall|r: int, j: int|
                    #![trigger dense[r][j]]
                    0 <= r < i && 0 <= j < cols ==> (dense[r][j] != 0 <==> exists|e: int|
                        #[trigger] in_slice(row_ptr@, r, e) && row_idx@[e] == j),
            decreases rows - i,
        {
            let ghost ptr0 = row_ptr@;
            let ghost idx0 = row_idx@;
            assert(i * cols + cols <= rows * cols) by (nonlinear_arith)
                requires
                    i < rows,
            ;
            let mut j: usize = 0;
            while j < cols
                invariant
                    j <= cols,
                    i < rows,
                    rows == dense.len(),
                    dense[i as int].len() == cols,
                    i * cols + cols <= usize::MAX / 2,
                    idx0.len() <= row_idx.len() <= i * cols + j,
                    row_idx@.subrange(0, idx0.len() as int) == idx0,
                    forall|e: int| idx0.len() <= e < row_idx.len() ==> row_idx@[e] < j,
                    forall|e1: int, e2: int|
                        idx0.len() <= e1 < e2 < row_idx.len() ==> row_idx@[e1] < row_idx@[e2],
                    forall|k: int|
                        0 <= k < j ==> (dense[i as int][k] != 0 <==> exists|e: int|
                            idx0.len() <= e < row_idx.len() && #[trigger] row_idx@[e] == k),
                decreases cols - j,
            {
                let ghost before = row_idx@;
                if dense[i][j] != 0 {
                    row_idx.push(j);
                    assert(row_idx@[before.len() as int] == j);
                }
                proof {
                    assert(row_idx@.subrange(0, idx0.len() as int) =~= idx0);
                    assert forall|k: int| 0 <= k < j + 1 implies (dense[i as int][k] != 0
                        <==> exists|e: int|
                        idx0.len() <= e < row_idx.len() && #[trigger] row_idx@[e] == k) by {
                        if k < j {
                            if dense[i as int][k] != 0 {
                                let e = choose|e: int|
                                    idx0.len() <= e < before.len() && #[trigger] before[e] == k;
                                assert(row_idx@[e] == k);
                            } else if exists|e: int|
                                idx0.len() <= e < row_idx.len() && #[trigger] row_idx@[e] == k {
                                let e = choose|e: int|
                                    idx0.len() <= e < row_idx.len() && #[trigger] row_idx@[e] == k;
                                assert(before[e] == k);
                            }
                        }
                    }
                }
                j += 1;
            }
            row_ptr.push(row_idx.len());
            proof {
                assert(row_ptr@.subrange(0, i + 1) =~= ptr0);
                assert forall|e: int| 0 <= e < idx0.len() implies row_idx@[e] == idx0[e] by {
                    assert(row_idx@.subrange(0, idx0.len() as int)[e] == row_idx@[e]);
                }
                assert forall|r: int, e: int|
                    0 <= r < i implies (#[trigger] in_slice(row_ptr@, r, e)
                    <==> in_slice(ptr0, r, e)) by {}
                assert forall|r: int, e1: int, e2: int|
                    #![trigger in_slice(row_ptr@, r, e1), in_slice(row_ptr@, r, e2)]
                    0 <= r < i + 1 && in_slice(row_ptr@, r, e1) && in_slice(row_ptr@, r, e2) && e1
                        < e2 implies row_idx@[e1] < row_idx@[e2] by {
                    if r < i {
                        assert(in_slice(ptr0, r, e1) && in_slice(ptr0, r, e2));
                        assert(ptr0[r + 1] <= ptr0[i as int]);
                    }
                }
                assert forall|a: int, b: int|
                    0 <= a <= b <= i + 1 implies row_ptr@[a] <= row_ptr@[b] by {
                    if b == i + 1 && a <= i {
                        assert(ptr0[a] <= ptr0[i as int]);
                    }
                }
                assert forall|e: int| 0 <= e < row_idx@.len() implies row_idx@[e] < cols by {
                    if e < idx0.len() {
                        assert(idx0[e] < cols);
                    }
                }
                assert(compressed((i + 1) as nat, cols as nat, row_ptr@, row_idx@));
                assert forall|r: int, k: int|
                    #![trigger dense[r][k]]
                    0 <= r < i + 1 && 0 <= k < cols implies (dense[r][k] != 0 <==> exists|e: int|
                    #[trigger] in_slice(row_ptr@, r, e) && row_idx@[e] == k) by {
                    if r < i {
                        if dense[r][k] != 0 {
                            let e = choose|e: int| #[trigger]
                                in_slice(ptr0, r, e) && idx0[e] == k;
                            assert(ptr0[r + 1] <= ptr0[i as int]);
                            assert(in_slice(row_ptr@, r, e));
                        } else if exists|e: int| #[trigger]
                            in_slice(row_ptr@, r, e) && row_idx@[e] == k {
                            let e = choose|e: int| #[trigger]
                                in_slice(row_ptr@, r, e) && row_idx@[e] == k;
                            assert(ptr0[r + 1] <= ptr0[i as int]);
                            assert(in_slice(ptr0, r, e) && idx0[e] == k);
                        }
                    } else {
                        if dense[r][k] != 0 {
                            let e = choose|e: int|
                                idx0.len() <= e < row_idx.len() && #[trigger] row_idx@[e] == k;
                            assert(in_slice(row_ptr@, r, e));
                        }
                    }
                }
                assert(i * cols + cols == (i + 1) * cols) by (nonlinear_arith);
            }
            i += 1;
        }
        let m = SparseBitMatrix::new(rows, cols, row_ptr, row_idx);
        proof {
            assert forall|i: int, j: int| 0 <= i < dense.len() && 0 <= j < cols implies (
            #[trigger] m@.entry(i, j) <==> dense[i][j] != 0) by {
                let p = m@.row_ptr;
                assert(p[i] <= p[i + 1] && p[i + 1] <= p[rows as int]);
                if m@.entry(i, j) {
                    let k = choose|k: int| 0 <= k < m@.row(i).len() && #[trigger] m@.row(i)[k] == j;
                    assert(in_slice(p, i, p[i] + k) && m@.row_idx[p[i] + k] == j);
                }
                if dense[i][j] != 0 {
                    let e = choose|e: int| #[trigger] in_slice(p, i, e) && m@.row_idx[e] == j;
                    assert(m@.row(i)[e - p[i]] == j);
                }
            }
        }
        m
    }

    /// The product with `v` modulo two: the syndrome of the error `v`.
    pub fn mul_mod2(&self, v: &Vec<Bit>) -> (r: Vec<Bit>)
        requires
            self@.wf(),
            v.len() == self@.cols,
        ensures
            r@ == self@.mul_mod2(v@),
    {
        let mut out: Vec<Bit> = Vec::new();
        let mut i: usize = 0;
        while i < self.rows
            invariant
                self@.wf(),
                v.len() == self@.cols,
                i <= self.rows,
                out.len() == i,
                forall|k: int| 0 <= k < i ==> out[k] == self@.mul_mod2(v@)[k],
            decreases self.rows - i,
        {
            let start: usize = self.row_ptr[i];
            let end: usize = self.row_ptr[i + 1];
            let mut parity: u8 = 0;
            let mut e: usize = start;
            assert(self@.row_ptr[i as int] <= self@.row_ptr[i + 1] <= self@.row_ptr[self.rows as int]);
            while e < end
                invariant
                    self@.wf(),
                    v.len() == self@.cols,
                    i < self.rows,
                    start == self@.row_ptr[i as int],
                    end == self@.row_ptr[i + 1],
                    start <= e <= end <= self@.nnz(),
                    parity < 2,
                    parity == dot(self@.row_idx.subrange(start as int, e as int), v@) % 2,
                decreases end - e,
            {
                let j: usize = self.row_idx[e];
                let b: u8 = v[j] % 2;
                proof {
                    let s = self@.row_idx.subrange(start as int, e as int + 1);
                    assert(s.drop_last() =~= self@.row_idx.subrange(start as int, e as int));
                }
                parity = if parity == b { 0 } else { 1 };
                e += 1;
            }
            out.push(parity);
            i += 1;
        }
        assert(out@ =~= self@.mul_mod2(v@));
        out
    }

    /// The columns of row `i`.
    pub fn row_indices(&self, i: usize) -> (r: Vec<usize>)
        requires
            self@.wf(),
            i < self@.rows,
        ensures
            r@ == self@.row(i as int),
    {
        assert(self@.row_ptr[i as int] <= self@.row_ptr[i + 1] <= self@.row_ptr[self.rows as int]);
        copy_range(&self.row_idx, self.row_ptr[i], self.row_ptr[i + 1])
    }

    /// The rows of column `j`.
    pub fn col_indices(&self, j: usize) -> (r: Vec<usize>)
        requires
            self@.wf(),
            j < self@.cols,
        ensures
            r@ == self@.col(j as int),
    {
        assert(self@.col_ptr[j as int] <= self@.col_ptr[j + 1] <= self@.col_ptr[self.cols as int]);
        copy_range(&self.col_idx, self.col_ptr[j], self.col_ptr[j + 1])
    }
}

impl Clone for SparseBitMatrix {
    fn clone(&self) -> (r: Self)
        ensures
            r@ == self@,
    {
        SparseBitMatrix {
            rows: self.rows,
            cols: self.cols,
            row_ptr: self.row_ptr.clone(),
            row_idx: self.row_idx.clone(),
            col_ptr: self.col_ptr.clone(),
            col_idx: self.col_idx.clone(),
            csr_to_csc: self.csr_to_csc.clone(),
            csc_to_csr: self.csc_to_csr.clone(),
        }
    }
}

/// The part of `values` from `start` up to `end`.
pub fn copy_range(values: &Vec<usize>, start: usize, end: usize) -> (r: Vec<usize>)
    requires
        start <= end <= values.len(),
    ensures
        r@ == values@.subrange(start as int, end as int),
{
    let mut r: Vec<usize> = Vec::new();
    let mut e: usize = start;
    while e < end
        invariant
            start <= e <= end <= values.len(),
            r@ == values@.subrange(start as int, e as int),
        decreases end - e,
    {
        r.push(values[e]);
        proof {
            assert(values@.subrange(start as int, e as int + 1) =~= values@.subrange(start as int, e as int).push(values@[e as int]));
        }
        e += 1;
    }
    r
}

/// A check is in the list of a variable exactly if the variable is in the list of the check.
pub proof fn lemma_entry_col(m: MatrixModel, i: int, j: int)
    requires
        m.wf(),
        0 <= i < m.rows,
        0 <= j < m.cols,
    ensures
        m.entry(i, j) <==> exists|k: int| 0 <= k < m.col(j).len() && #[trigger] m.col(j)[k] == i,
{
    assert(m.row_ptr[i] <= m.row_ptr[i + 1] <= m.row_ptr[m.rows as int]);
    assert(m.col_ptr[j] <= m.col_ptr[j + 1] <= m.col_ptr[m.cols as int]);
    if m.entry(i, j) {
        let k = choose|k: int| 0 <= k < m.row(i).len() && #[trigger] m.row(i)[k] == j;
        let e = m.row_ptr[i] + k;
        let f = m.csr_to_csc[e] as int;
        assert(in_slice(m.row_ptr, i, e));
        assert(m.csc_to_csr[f] == e);
        lemma_slice_unique(m.rows, m.cols, m.row_ptr, m.row_idx, i, m.col_idx[f] as int, e);
        assert(m.col(j)[f - m.col_ptr[j]] == i);
    }
    if exists|k: int| 0 <= k < m.col(j).len() && #[trigger] m.col(j)[k] == i {
        let k = choose|k: int| 0 <= k < m.col(j).len() && #[trigger] m.col(j)[k] == i;
        let f = m.col_ptr[j] + k;
        let e = m.csc_to_csr[f] as int;
        assert(in_slice(m.col_ptr, j, f));
        assert(m.csr_to_csc[e] == f);
        lemma_slice_unique(m.cols, m.rows, m.col_ptr, m.col_idx, j, m.row_idx[e] as int, f);
        assert(m.row(i)[e - m.row_ptr[i]] == j);
    }
}

/// The entries of a row increase.
pub proof fn lemma_row_sorted(m: MatrixModel, i: int)
    requires
        m.wf(),
        0 <= i < m.rows,
    ensures
        forall|a: int, b: int| 0 <= a < b < m.row(i).len() ==> m.row(i)[a] < m.row(i)[b],
        forall|a: int| 0 <= a < m.row(i).len() ==> m.row(i)[a] < m.cols,
{
    assert(m.row_ptr[i] <= m.row_ptr[i + 1] <= m.row_ptr[m.rows as int]);
    assert forall|a: int, b: int| 0 <= a < b < m.row(i).len() implies m.row(i)[a] < m.row(i)[b] by {
        assert(in_slice(m.row_ptr, i, m.row_ptr[i] + a));
        assert(in_slice(m.row_ptr, i, m.row_ptr[i] + b));
    }
}

/// The entries of a column increase.
pub proof fn lemma_col_sorted(m: MatrixModel, j: int)
    requires
        m.wf(),
        0 <= j < m.cols,
    ensures
        forall|a: int, b: int| 0 <= a < b < m.col(j).len() ==> m.col(j)[a] < m.col(j)[b],
        forall|a: int| 0 <= a < m.col(j).len() ==> m.col(j)[a] < m.rows,
{
    assert(m.col_ptr[j] <= m.col_ptr[j + 1] <= m.col_ptr[m.cols as int]);
    assert forall|a: int, b: int| 0 <= a < b < m.col(j).len() implies m.col(j)[a] < m.col(j)[b] by {
        assert(in_slice(m.col_ptr, j, m.col_ptr[j] + a));
        assert(in_slice(m.col_ptr, j, m.col_ptr[j] + b));
    }
}

/// The bitwise sum of two bit vectors.
pub open spec fn xor(a: Seq<Bit>, b: Seq<Bit>) -> Seq<Bit> {
    Seq::new(a.len(), |j: int| ((a[j] + b[j]) % 2) as Bit)
}

proof fn lemma_dot_xor(idx: Seq<usize>, a: Seq<Bit>, b: Seq<Bit>)
    requires
        a.len() == b.len(),
        forall|k: int| 0 <= k < idx.len() ==> idx[k] < a.len(),
    ensures
        dot(idx, xor(a, b)) % 2 == (dot(idx, a) + dot(idx, b)) % 2,
    decreases idx.len(),
{
    if idx.len() > 0 {
        lemma_dot_xor(idx.drop_last(), a, b);
    }
}

/// The syndrome is linear: the syndrome of a sum of errors is the sum of their syndromes.
pub proof fn law_syndrome_linear(m: MatrixModel, a: Seq<Bit>, b: Seq<Bit>)
    requires
        m.wf(),
        a.len() == m.cols,
        b.len() == m.cols,
    ensures
        m.mul_mod2(xor(a, b)) == xor(m.mul_mod2(a), m.mul_mod2(b)),
{
    assert forall|i: int| 0 <= i < m.rows implies #[trigger] m.mul_mod2(xor(a, b))[i] == xor(
        m.mul_mod2(a),
        m.mul_mod2(b),
    )[i] by {
        assert(m.row_ptr[i] <= m.row_ptr[i + 1] <= m.row_ptr[m.rows as int]);
        lemma_dot_xor(m.row(i), a, b);
    }
    assert(m.mul_mod2(xor(a, b)) =~= xor(m.mul_mod2(a), m.mul_mod2(b)));
}

} // verus!
