//! The members of an ensemble of relay decoders.

use vstd::prelude::*;
use vstd::set_lib::{lemma_int_range, lemma_subset_equality, set_int_range};

use crate::decoder::{Decoder, LegsDrawn};
use crate::ensemble_decoder::{
    ensemble_ready, EnsembleDecoder, EnsembleMode, RepulsiveConfig, SelectionStrategy,
};
use crate::matrix::{
    compressed, dot, in_slice, lemma_row_sorted, slice_of, Bit, MatrixModel, SparseBitMatrix,
};
use crate::min_sum::{BpModel, ConfigModel, MinSumDecoderConfig};
use crate::observable_decoder::ObservableDecoderRunner;
use crate::options::{
    ensemble_mode, ensemble_mode_of, repulsion, repulsive_config, reweighting_mode,
    reweighting_mode_of, reweighting_selection, reweighting_selection_of, selection_strategy,
    selection_strategy_of, stopping_criterion, stopping_criterion_of, OptionError,
};
use crate::order::{add_member, increasing, lemma_with_member, with_member};
use crate::rejection_decoder::{RejectionConfig, RejectionDecoder, RejectionModel};
use crate::relay::{are_gains, DrawnRelayDecoder, RelayDecoder, RelayDecoderConfig, RelayDraws};

verus! {

/// `perm` moves every one of `n` places to a place of its own.
pub open spec fn is_permutation(perm: Seq<usize>, n: nat) -> bool {
    &&& perm.len() == n
    &&& forall|j: int| 0 <= j < n ==> (#[trigger] perm[j]) < n
    &&& forall|j: int, k: int| 0 <= j < n && 0 <= k < n && j != k ==> perm[j] != perm[k]
}

/// `moved` is `m` with column `j` moved to place `perm[j]`.
pub open spec fn columns_moved(moved: MatrixModel, m: MatrixModel, perm: Seq<usize>) -> bool {
    &&& moved.wf()
    &&& moved.rows == m.rows
    &&& moved.cols == m.cols
    &&& forall|i: int, j: int|
        0 <= i < m.rows && 0 <= j < m.cols ==> (moved.row(i).contains(perm[j])
            <==> #[trigger] m.entry(i, j))
}

/// `moved` is `values` with value `j` moved to place `perm[j]`.
pub open spec fn values_moved(moved: Seq<i64>, values: Seq<i64>, perm: Seq<usize>) -> bool {
    &&& moved.len() == values.len()
    &&& forall|j: int| 0 <= j < values.len() ==> moved[perm[j] as int] == #[trigger] values[j]
}

/// `moved` is `bits` with bit `j` moved to place `perm[j]`.
pub open spec fn bits_moved(moved: Seq<Bit>, bits: Seq<Bit>, perm: Seq<usize>) -> bool {
    &&& moved.len() == bits.len()
    &&& forall|j: int| 0 <= j < bits.len() ==> moved[perm[j] as int] == #[trigger] bits[j]
}

/// Moving columns keeps syndromes: the errors, moved alike, have the same syndrome in the code
/// with its columns moved.
pub proof fn law_moved_syndrome(
    moved: MatrixModel,
    m: MatrixModel,
    perm: Seq<usize>,
    moved_errors: Seq<Bit>,
    errors: Seq<Bit>,
)
    requires
        m.wf(),
        is_permutation(perm, m.cols),
        columns_moved(moved, m, perm),
        errors.len() == m.cols,
        bits_moved(moved_errors, errors, perm),
    ensures
        moved.mul_mod2(moved_errors) == m.mul_mod2(errors),
{
    assert forall|i: int| 0 <= i < m.rows implies #[trigger] moved.mul_mod2(moved_errors)[i]
        == m.mul_mod2(errors)[i] by {
        let row = m.row(i);
        let image = Seq::new(row.len(), |k: int| perm[row[k] as int]);
        lemma_row_sorted(m, i);
        lemma_row_sorted(moved, i);
        lemma_dot_image(row, image, perm, moved_errors, errors);
        assert forall|x: usize| image.contains(x) <==> #[trigger] moved.row(i).contains(x) by {
            if image.contains(x) {
                let k = image.index_of(x);
                assert(m.row(i)[k] == row[k]);
                assert(m.entry(i, row[k] as int));
            }
            if moved.row(i).contains(x) {
                let k = moved.row(i).index_of(x);
                let j = lemma_permutation_reaches(perm, m.cols, x);
                assert(m.entry(i, j));
                let e = choose|e: int| 0 <= e < m.row(i).len() && #[trigger] m.row(i)[e] == j;
                assert(image[e] == x);
            }
        }
        lemma_dot_same_places(image, moved.row(i), moved_errors);
    }
    assert(moved.mul_mod2(moved_errors) =~= m.mul_mod2(errors));
}

/// A permutation moves some place to `x`.
proof fn lemma_permutation_reaches(perm: Seq<usize>, n: nat, x: usize) -> (j: int)
    requires
        is_permutation(perm, n),
        x < n,
    ensures
        0 <= j < n,
        perm[j] == x,
{
    let places = Seq::new(n, |j: int| perm[j] as int);
    places.unique_seq_to_set();
    lemma_int_range(0, n as int);
    let reached = places.to_set();
    assert forall|y: int| reached.contains(y) implies set_int_range(0, n as int).contains(y) by {
        let k = places.index_of(y);
        assert(perm[k] < n);
    }
    vstd::seq_lib::seq_to_set_is_finite(places);
    lemma_subset_equality(reached, set_int_range(0, n as int));
    assert(reached.contains(x as int));
    places.index_of(x as int)
}

/// The sum over moved places of what was moved there.
proof fn lemma_dot_image(
    row: Seq<usize>,
    image: Seq<usize>,
    perm: Seq<usize>,
    moved: Seq<Bit>,
    bits: Seq<Bit>,
)
    requires
        bits_moved(moved, bits, perm),
        image.len() == row.len(),
        forall|k: int| 0 <= k < row.len() ==> (#[trigger] row[k]) < bits.len(),
        forall|k: int| 0 <= k < row.len() ==> #[trigger] image[k] == perm[row[k] as int],
    ensures
        dot(image, moved) == dot(row, bits),
    decreases row.len(),
{
    if row.len() > 0 {
        lemma_dot_image(row.drop_last(), image.drop_last(), perm, moved, bits);
        assert(image.last() == perm[row.last() as int]);
        assert(moved[perm[row.last() as int] as int] == bits[row.last() as int]);
    }
}

/// A place taken out of a sum.
proof fn lemma_dot_remove(places: Seq<usize>, v: Seq<Bit>, k: int)
    requires
        0 <= k < places.len(),
    ensures
        dot(places, v) == dot(places.remove(k), v) + v[places[k] as int],
    decreases places.len(),
{
    let rest = places.drop_last();
    if k < rest.len() {
        lemma_dot_remove(rest, v, k);
        assert(places.remove(k).drop_last() =~= rest.remove(k));
    } else {
        assert(places.remove(k) =~= rest);
    }
}

/// A sum depends only on which places it has.
proof fn lemma_dot_same_places(a: Seq<usize>, b: Seq<usize>, v: Seq<Bit>)
    requires
        a.no_duplicates(),
        b.no_duplicates(),
        forall|x: usize| a.contains(x) <==> #[trigger] b.contains(x),
    ensures
        dot(a, v) == dot(b, v),
    decreases a.len(),
{
    if a.len() == 0 {
        if b.len() > 0 {
            assert(b.contains(b[0]));
        }
    } else {
        let x = a.last();
        let rest = a.drop_last();
        assert(a[a.len() - 1] == x);
        assert(b.contains(x));
        let k = b.index_of(x);
        let other = b.remove(k);
        lemma_dot_remove(b, v, k);
        assert forall|y: usize| rest.contains(y) <==> #[trigger] other.contains(y) by {
            if rest.contains(y) {
                let i = rest.index_of(y);
                assert(a[i] == y);
                assert(b.contains(y));
                let e = b.index_of(y);
                assert(other[if e < k { e } else { e - 1 }] == y);
            }
            if other.contains(y) {
                let e = other.index_of(y);
                assert(b[if e < k { e } else { e + 1 }] == y);
                assert(b.contains(y));
                let i = a.index_of(y);
                assert(rest[i] == y);
            }
        }
        lemma_dot_same_places(rest, other, v);
    }
}

/// A row added to a compressed form.
proof fn lemma_append_row(
    outer: nat,
    inner: nat,
    ptr: Seq<usize>,
    idx: Seq<usize>,
    row: Seq<usize>,
)
    requires
        compressed(outer, inner, ptr, idx),
        increasing(row),
        forall|k: int| 0 <= k < row.len() ==> (#[trigger] row[k]) < inner,
        idx.len() + row.len() <= usize::MAX,
    ensures
        ({
            let ptr2 = ptr.push((idx.len() + row.len()) as usize);
            let idx2 = idx + row;
            &&& compressed(outer + 1, inner, ptr2, idx2)
            &&& slice_of(ptr2, idx2, outer as int) == row
            &&& forall|i: int|
                0 <= i < outer ==> #[trigger] slice_of(ptr2, idx2, i) == slice_of(ptr, idx, i)
        }),
{
    let ptr2 = ptr.push((idx.len() + row.len()) as usize);
    let idx2 = idx + row;
    assert forall|i: int, e1: int, e2: int|
        #![trigger in_slice(ptr2, i, e1), in_slice(ptr2, i, e2)]
        0 <= i < outer + 1 && in_slice(ptr2, i, e1) && in_slice(ptr2, i, e2) && e1
            < e2 implies idx2[e1] < idx2[e2] by {
        if i < outer {
            assert(ptr[i + 1] <= ptr[outer as int]);
            assert(in_slice(ptr, i, e1) && in_slice(ptr, i, e2));
        } else {
            assert(idx2[e1] == row[e1 - idx.len()]);
            assert(idx2[e2] == row[e2 - idx.len()]);
        }
    }
    assert(slice_of(ptr2, idx2, outer as int) =~= row);
    assert forall|i: int| 0 <= i < outer implies #[trigger] slice_of(ptr2, idx2, i) == slice_of(
        ptr,
        idx,
        i,
    ) by {
        assert(ptr[i + 1] <= ptr[outer as int]);
        assert(slice_of(ptr2, idx2, i) =~= slice_of(ptr, idx, i));
    }
}

/// The places that the entries of a row are moved to, in increasing order.
fn move_row(row: &Vec<usize>, perm: &Vec<usize>, Ghost(n): Ghost<nat>) -> (r: Vec<usize>)
    requires
        is_permutation(perm@, n),
        forall|k: int| 0 <= k < row.len() ==> (#[trigger] row[k]) < n,
    ensures
        increasing(r@),
        r.len() <= row.len(),
        forall|k: int| 0 <= k < r.len() ==> (#[trigger] r[k]) < n,
        forall|j: int| 0 <= j < n ==> (r@.contains(#[trigger] perm[j]) <==> row@.contains(j as usize)),
{
    let mut r: Vec<usize> = Vec::new();
    let mut k: usize = 0;
    while k < row.len()
        invariant
            is_permutation(perm@, n),
            forall|i: int| 0 <= i < row.len() ==> (#[trigger] row[i]) < n,
            k <= row.len(),
            increasing(r@),
            r.len() <= k,
            forall|i: int| 0 <= i < r.len() ==> (#[trigger] r[i]) < n,
            forall|j: int|
                0 <= j < n ==> (r@.contains(#[trigger] perm[j]) <==> row@.take(k as int).contains(
                    j as usize,
                )),
        decreases row.len() - k,
    {
        let x: usize = perm[row[k]];
        assert(perm.len() == n);
        let ghost before = r@;
        add_member(&mut r, x);
        proof {
            lemma_with_member(before, x);
            lemma_with_member_len(before, x);
            let shorter = row@.take(k as int);
            let longer = row@.take(k + 1);
            assert(longer =~= shorter.push(row@[k as int]));
            assert forall|j: int| 0 <= j < n implies (r@.contains(#[trigger] perm[j])
                <==> longer.contains(j as usize)) by {
                assert(before.contains(perm[j]) <==> shorter.contains(j as usize));
                assert(with_member(before, x).contains(perm[j]) <==> before.contains(perm[j])
                    || perm[j] == x);
                if shorter.contains(j as usize) {
                    let i = shorter.index_of(j as usize);
                    assert(longer[i] == j as usize);
                }
                if perm[j] == x {
                    assert(perm@[j] == perm@[row@[k as int] as int]);
                    assert(longer[k as int] == j as usize);
                }
                if longer.contains(j as usize) {
                    let i = longer.index_of(j as usize);
                    if i < k {
                        assert(shorter[i] == j as usize);
                    }
                }
            }
            assert forall|i: int| 0 <= i < r.len() implies (#[trigger] r[i]) < n by {
                assert(with_member(before, x).contains(r@[i]));
                if before.contains(r@[i]) {
                    let j = before.index_of(r@[i]);
                    assert(before[j] == r@[i]);
                }
            }
        }
        k += 1;
    }
    assert(row@.take(row@.len() as int) =~= row@);
    r
}

proof fn lemma_with_member_len(r: Seq<usize>, x: usize)
    ensures
        with_member(r, x).len() <= r.len() + 1,
    decreases r.len(),
{
    if r.len() > 0 {
        lemma_with_member_len(r.drop_last(), x);
    }
}

/// The matrix with column `j` moved to place `perm[j]`: its product with the matrix of the
/// permutation.
pub fn move_columns(matrix: &SparseBitMatrix, perm: &Vec<usize>) -> (r: SparseBitMatrix)
    requires
        matrix@.wf(),
        is_permutation(perm@, matrix@.cols),
    ensures
        columns_moved(r@, matrix@, perm@),
{
    let ghost m = matrix@;
    let rows: usize = matrix.rows;
    let cols: usize = matrix.cols;
    let mut row_ptr: Vec<usize> = Vec::new();
    row_ptr.push(0);
    let mut row_idx: Vec<usize> = Vec::new();
    let mut i: usize = 0;
    while i < rows
        invariant
            m == matrix@,
            m.wf(),
            is_permutation(perm@, m.cols),
            rows == m.rows,
            cols == m.cols,
            i <= rows,
            compressed(i as nat, cols as nat, row_ptr@, row_idx@),
            row_idx.len() <= m.row_ptr[i as int],
            forall|a: int, j: int|
                0 <= a < i && 0 <= j < m.cols ==> (slice_of(row_ptr@, row_idx@, a).contains(
                    perm@[j],
                ) <==> #[trigger] m.entry(a, j)),
        decreases rows - i,
    {
        let ghost ptr = row_ptr@;
        let ghost idx = row_idx@;
        let row: Vec<usize> = matrix.row_indices(i);
        proof {
            lemma_row_sorted(m, i as int);
            assert(m.row_ptr[i as int] <= m.row_ptr[i + 1] <= m.row_ptr[rows as int]);
        }
        let mut moved: Vec<usize> = move_row(&row, perm, Ghost(m.cols));
        let ghost added = moved@;
        proof {
            lemma_append_row(i as nat, cols as nat, ptr, idx, added);
        }
        row_idx.append(&mut moved);
        row_ptr.push(row_idx.len());
        proof {
            assert(row_idx@ =~= idx + added);
            assert forall|a: int, j: int| 0 <= a < i + 1 && 0 <= j < m.cols implies (slice_of(
                row_ptr@,
                row_idx@,
                a,
            ).contains(perm@[j]) <==> #[trigger] m.entry(a, j)) by {
                if a < i {
                    assert(slice_of(row_ptr@, row_idx@, a) == slice_of(ptr, idx, a));
                } else {
                    assert(slice_of(row_ptr@, row_idx@, a) == added);
                    assert(added.contains(perm@[j]) <==> m.row(a).contains(j as usize));
                    if m.entry(a, j) {
                        let k = choose|k: int|
                            0 <= k < m.row(a).len() && #[trigger] m.row(a)[k] == j;
                        assert(m.row(a).contains(j as usize));
                    }
                    if m.row(a).contains(j as usize) {
                        let k = m.row(a).index_of(j as usize);
                        assert(m.row(a)[k] == j);
                    }
                }
            }
        }
        i += 1;
    }
    SparseBitMatrix::new(rows, cols, row_ptr, row_idx)
}

/// The values with value `j` moved to place `perm[j]`.
pub fn move_values(values: &Vec<i64>, perm: &Vec<usize>) -> (r: Vec<i64>)
    requires
        is_permutation(perm@, values@.len()),
    ensures
        values_moved(r@, values@, perm@),
        (forall|j: int| 0 <= j < values.len() ==> values[j] > i64::MIN) ==> forall|v: int|
            0 <= v < r.len() ==> r[v] > i64::MIN,
{
    let mut r: Vec<i64> = vec![0; values.len()];
    let mut j: usize = 0;
    while j < values.len()
        invariant
            is_permutation(perm@, values@.len()),
            r.len() == values.len(),
            j <= values.len(),
            forall|k: int| 0 <= k < j ==> r[perm@[k] as int] == #[trigger] values[k],
            (forall|k: int| 0 <= k < values.len() ==> values[k] > i64::MIN) ==> forall|v: int|
                0 <= v < r.len() ==> r[v] > i64::MIN,
        decreases values.len() - j,
    {
        r.set(perm[j], values[j]);
        j += 1;
    }
    r
}

/// What all members of an ensemble have in common.
#[derive(Clone, Debug)]
pub struct MemberOptions {
    /// The relay decoder of a member that is not repulsive.
    pub relay: RelayDecoderConfig,
    /// The number of repulsive members; the first ones are.
    pub repulsive_size: usize,
    /// Whether repulsive memory strengths are known.
    pub repulsive: bool,
    pub abs_llr_threshold: Option<i64>,
    pub pulse_per_leg: Option<usize>,
    pub start_leg: Option<usize>,
    /// The seed of the first member.
    pub seed: u64,
}

impl MemberOptions {
    /// The relay decoder of member `i`.
    pub open spec fn relay_of(self, i: nat, r: RelayDecoderConfig) -> bool {
        if i < self.repulsive_size {
            r.same_as(
                RelayDecoderConfig {
                    repulsive: self.repulsive,
                    abs_llr_threshold: self.abs_llr_threshold,
                    pulse_per_leg: self.pulse_per_leg,
                    start_leg: self.start_leg,
                    ..self.relay
                },
            )
        } else {
            r.same_as(self.relay)
        }
    }

    /// The relay decoder of member `i`.
    pub fn member_relay_config(&self, i: usize) -> (r: RelayDecoderConfig)
        ensures
            self.relay_of(i as nat, r),
    {
        let mut r: RelayDecoderConfig = self.relay.clone();
        if i < self.repulsive_size {
            r.repulsive = self.repulsive;
            r.abs_llr_threshold = self.abs_llr_threshold;
            r.pulse_per_leg = self.pulse_per_leg;
            r.start_leg = self.start_leg;
        }
        r
    }

    /// The seed of member `i`.
    pub fn member_seed(&self, i: usize) -> (r: u64)
        requires
            self.seed + i <= u64::MAX,
        ensures
            r == self.seed + i,
    {
        self.seed + (i as u64)
    }
}

/// Permutations of the columns and of the rows of the code, one of each for every member.
#[derive(Clone, Debug)]
pub struct Permutations {
    pub columns: Vec<Vec<usize>>,
    pub rows: Vec<Vec<usize>>,
}

/// What is missing of permutations for `n` members: the member that lacks one first decides,
/// and its columns come before its rows.
pub open spec fn permutations_missing(p: Permutations, n: nat) -> Option<OptionError> {
    if p.columns.len() < n && p.columns.len() <= p.rows.len() {
        Some(OptionError::ColumnPermutations)
    } else if p.rows.len() < n {
        Some(OptionError::RowPermutations)
    } else {
        None
    }
}

/// Member `i` is a relay decoder with the priors `priors`, on the code with its columns moved
/// where there are permutations.
pub open spec fn is_member(
    d: DrawnRelayDecoder,
    check_matrix: MatrixModel,
    min_sum: ConfigModel,
    options: MemberOptions,
    permutations: Option<Permutations>,
    priors: Seq<i64>,
    supply: Seq<LegsDrawn<RelayDraws>>,
    i: nat,
) -> bool {
    let bp = d.relay.bp_decoder@;
    &&& d.relay.wf()
    &&& bp == BpModel::built(bp.matrix, ConfigModel { priors: bp.config.priors, ..min_sum })
    &&& match permutations {
        Some(p) => {
            &&& columns_moved(bp.matrix, check_matrix, p.columns[i as int]@)
            &&& values_moved(bp.config.priors, priors, p.columns[i as int]@)
        },
        None => bp.matrix == check_matrix && bp.config.priors == priors,
    }
    &&& options.relay_of(i, d.relay.relay_config)
    &&& d.supply@ == supply
}

/// A relay decoder with what was drawn for it, for each member of an ensemble. `priors` and
/// `supplies` hold what belongs to each member, `supplies` for each decoding to come.
pub fn build_members(
    check_matrix: &SparseBitMatrix,
    min_sum_config: &MinSumDecoderConfig,
    options: &MemberOptions,
    permutations: &Option<Permutations>,
    priors: Vec<Vec<i64>>,
    supplies: Vec<Vec<LegsDrawn<RelayDraws>>>,
) -> (r: Result<Vec<DrawnRelayDecoder>, OptionError>)
    requires
        check_matrix@.wf(),
        min_sum_config@.wf(check_matrix@.cols),
        options.relay.wf(check_matrix@.cols),
        options.pulse_per_leg != Some(0usize),
        options.abs_llr_threshold != Some(i64::MIN),
        supplies.len() == priors.len(),
        forall|i: int|
            0 <= i < priors.len() ==> (#[trigger] priors[i]).len() == check_matrix@.cols,
        forall|i: int, v: int|
            0 <= i < priors.len() && 0 <= v < check_matrix@.cols ==> (#[trigger] priors[i]@[v])
                > i64::MIN,
        permutations matches Some(p) ==> forall|i: int|
            0 <= i < p.columns.len() ==> is_permutation(
                #[trigger] p.columns[i]@,
                check_matrix@.cols,
            ),
    ensures
        ({
            let missing = match permutations {
                Some(p) => permutations_missing(*p, priors@.len()),
                None => None,
            };
            match missing {
                Some(e) => r == Err::<Vec<DrawnRelayDecoder>, OptionError>(e),
                None => r is Ok,
            }
        }),
        r matches Ok(members) ==> {
            &&& members.len() == priors.len()
            &&& forall|i: int|
                0 <= i < members.len() ==> is_member(
                    #[trigger] members[i],
                    check_matrix@,
                    min_sum_config@,
                    *options,
                    *permutations,
                    priors[i]@,
                    supplies[i]@,
                    i as nat,
                )
        },
{
    let n: usize = priors.len();
    match permutations {
        Some(p) => {
            if p.columns.len() < n && p.columns.len() <= p.rows.len() {
                return Err(OptionError::ColumnPermutations);
            }
            if p.rows.len() < n {
                return Err(OptionError::RowPermutations);
            }
        },
        None => {},
    }
    let ghost all_supplies = supplies@;
    let mut supplies: Vec<Vec<LegsDrawn<RelayDraws>>> = supplies;
    let mut members: Vec<DrawnRelayDecoder> = Vec::new();
    while members.len() < n
        invariant
            check_matrix@.wf(),
            min_sum_config@.wf(check_matrix@.cols),
            options.relay.wf(check_matrix@.cols),
            options.pulse_per_leg != Some(0usize),
            options.abs_llr_threshold != Some(i64::MIN),
            n == priors.len(),
            all_supplies.len() == n,
            forall|i: int|
                0 <= i < priors.len() ==> (#[trigger] priors[i]).len() == check_matrix@.cols,
            forall|i: int, v: int|
                0 <= i < priors.len() && 0 <= v < check_matrix@.cols ==> (
                #[trigger] priors[i]@[v]) > i64::MIN,
            permutations matches Some(p) ==> p.columns.len() >= n && forall|i: int|
                0 <= i < p.columns.len() ==> is_permutation(
                    #[trigger] p.columns[i]@,
                    check_matrix@.cols,
                ),
            members.len() <= n,
            supplies.len() == n - members.len(),
            supplies@ == all_supplies.skip(members.len() as int),
            forall|i: int|
                0 <= i < members.len() ==> is_member(
                    #[trigger] members[i],
                    check_matrix@,
                    min_sum_config@,
                    *options,
                    *permutations,
                    priors[i]@,
                    all_supplies[i]@,
                    i as nat,
                ),
        decreases n - members.len(),
    {
        let i: usize = members.len();
        let mut config: MinSumDecoderConfig = min_sum_config.clone();
        let mut matrix: SparseBitMatrix = check_matrix.clone();
        match permutations {
            Some(p) => {
                assert(is_permutation(p.columns[i as int]@, check_matrix@.cols));
                assert forall|v: int| 0 <= v < priors[i as int].len() implies priors[i as int][v]
                    > i64::MIN by {
                    assert(priors[i as int]@[v] > i64::MIN);
                }
                matrix = move_columns(check_matrix, &p.columns[i]);
                config.log_prior_ratios = move_values(&priors[i], &p.columns[i]);
            },
            None => {
                config.log_prior_ratios = priors[i].clone();
            },
        }
        assert forall|v: int| 0 <= v < check_matrix@.cols implies config@.priors[v] > i64::MIN by {
            assert(priors[i as int]@[v] > i64::MIN);
        }
        let relay_config: RelayDecoderConfig = options.member_relay_config(i);
        let ghost model = config@;
        assert(model =~= (ConfigModel { priors: model.priors, ..min_sum_config@ }));
        let relay: RelayDecoder = RelayDecoder::new(matrix, config, relay_config);
        let supply: Vec<LegsDrawn<RelayDraws>> = supplies.remove(0);
        assert(supplies@ =~= all_supplies.skip(i + 1));
        members.push(DrawnRelayDecoder { relay, supply });
    }
    Ok(members)
}

/// The parameters of an ensemble of relay decoders.
#[derive(Clone, Debug)]
pub struct EnsembleSetup<'a> {
    /// The relay decoder of a member that is not repulsive, but for when it stops.
    pub relay: RelayDecoderConfig,
    /// When a member stops, by its name.
    pub stopping_criterion: &'a str,
    pub stop_nconv: usize,
    /// Which estimate is taken, by its name.
    pub selection_strategy: &'a str,
    pub selection_max_index: Option<usize>,
    /// How the members differ, by its name.
    pub ensemble_mode: &'a str,
    pub repulsive_size: usize,
    pub repulsive_gamma_dist: Option<(i64, i64)>,
    pub abs_llr_threshold: Option<i64>,
    pub pulse_per_leg: Option<usize>,
    pub start_leg: Option<usize>,
    pub seed: u64,
    /// The unit of the fixed-point numbers.
    pub unit: i64,
}

impl EnsembleSetup<'_> {
    /// What all members have in common.
    pub open spec fn members(self) -> MemberOptions {
        MemberOptions {
            relay: RelayDecoderConfig {
                stopping_criterion: stopping_criterion_of(
                    self.stopping_criterion@,
                    self.stop_nconv,
                ),
                ..self.relay
            },
            repulsive_size: self.repulsive_size,
            repulsive: self.repulsive_gamma_dist is Some,
            abs_llr_threshold: self.abs_llr_threshold,
            pulse_per_leg: self.pulse_per_leg,
            start_leg: self.start_leg,
            seed: self.seed,
        }
    }

    /// How repulsive members are set up.
    pub open spec fn repulsion(self) -> Option<RepulsiveConfig> {
        repulsion(
            ensemble_mode_of(self.ensemble_mode@),
            self.repulsive_size,
            self.repulsive_gamma_dist,
            self.abs_llr_threshold,
            self.pulse_per_leg,
            self.start_leg,
            self.unit,
        )
    }

    /// The parameters fit a code with `cols` variables and an ensemble of `n` members.
    pub open spec fn wf(self, cols: nat, n: nat) -> bool {
        &&& self.relay.wf(cols)
        &&& self.pulse_per_leg != Some(0usize)
        &&& self.abs_llr_threshold != Some(i64::MIN)
        &&& 1 <= self.unit <= 0x2000_0000_0000_0000
        &&& self.repulsion() matches Some(c) ==> c.repulsive_size <= n
    }
}

/// The memory strengths that were drawn suffice for every leg of a member, repulsive or not.
pub open spec fn gains_drawn(draws: Seq<RelayDraws>, legs: usize, cols: nat) -> bool {
    &&& draws.len() >= legs
    &&& forall|s: int|
        #![trigger draws[s]]
        0 <= s < legs ==> are_gains(draws[s].gammas@, cols) && are_gains(
            draws[s].repulsive_gammas@,
            cols,
        )
}

/// The priors of member `i` of an ensemble: the first member has those given, each other one
/// its own.
pub open spec fn member_priors(priors: Seq<i64>, perturbed: Seq<Vec<i64>>, i: int) -> Seq<i64> {
    if i == 0 {
        priors
    } else {
        perturbed[i - 1]@
    }
}

/// A decoder of observables by an ensemble of relay decoders. The estimates are weighed by
/// the priors of `min_sum_config`, which the first member decodes with; `perturbed` holds
/// those of the other members, `supplies` what was drawn for each member and each decoding to
/// come. With permutations, which a member decodes a moved code with, nothing is said of
/// whether the members can decode together, and the permutations of rows are only counted.
pub fn with_ensemble_decoder(
    check_matrix: &SparseBitMatrix,
    observable_matrix: SparseBitMatrix,
    min_sum_config: &MinSumDecoderConfig,
    setup: EnsembleSetup,
    permutations: &Option<Permutations>,
    perturbed: Vec<Vec<i64>>,
    supplies: Vec<Vec<LegsDrawn<RelayDraws>>>,
) -> (r: Result<ObservableDecoderRunner<EnsembleDecoder<DrawnRelayDecoder>>, OptionError>)
    requires
        check_matrix@.wf(),
        observable_matrix@.wf(),
        observable_matrix@.cols == check_matrix@.cols,
        min_sum_config@.wf(check_matrix@.cols),
        setup.wf(check_matrix@.cols, perturbed@.len() + 1),
        supplies.len() == perturbed.len() + 1,
        forall|i: int|
            0 <= i < perturbed.len() ==> (#[trigger] perturbed[i]).len() == check_matrix@.cols,
        forall|i: int, v: int|
            0 <= i < perturbed.len() && 0 <= v < check_matrix@.cols ==> (
            #[trigger] perturbed[i]@[v]) > i64::MIN,
        setup.relay.explicit_gammas is None ==> forall|i: int, k: int|
            0 <= i < supplies.len() && 0 <= k < supplies[i].len() ==> gains_drawn(
                (#[trigger] supplies[i]@[k]).draws@,
                setup.relay.num_sets,
                check_matrix@.cols,
            ),
        permutations matches Some(p) ==> forall|i: int|
            0 <= i < p.columns.len() ==> is_permutation(
                #[trigger] p.columns[i]@,
                check_matrix@.cols,
            ),
    ensures
        ({
            let missing = match permutations {
                Some(p) => permutations_missing(*p, perturbed@.len() + 1),
                None => None,
            };
            match missing {
                Some(e) => r == Err::<
                    ObservableDecoderRunner<EnsembleDecoder<DrawnRelayDecoder>>,
                    OptionError,
                >(e),
                None => r is Ok,
            }
        }),
        r matches Ok(runner) ==> {
            let e = runner.decoder;
            &&& runner.observable_error_matrix == observable_matrix
            &&& runner.include_decode_result
            &&& runner.unit == setup.unit
            &&& permutations is None ==> runner.wf()
            &&& forall|n: nat|
                (forall|i: int| 0 <= i < supplies.len() ==> (#[trigger] supplies[i]).len() >= n)
                    ==> #[trigger] EnsembleDecoder::<DrawnRelayDecoder>::lasts(e.model(), n)
            &&& e.strategy == selection_strategy_of(setup.selection_strategy@)
            &&& e.original_log_priors matches Some(p) && p@ == min_sum_config@.priors
            &&& e.observable_matrix matches Some(o) && o@ == observable_matrix@
            &&& e.selection_max_index == setup.selection_max_index
            &&& e.mode == ensemble_mode_of(setup.ensemble_mode@)
            &&& e.repulsive_config == setup.repulsion()
            &&& e.decoders.len() == perturbed.len() + 1
            &&& forall|i: int|
                0 <= i < e.decoders.len() ==> is_member(
                    #[trigger] e.decoders[i],
                    check_matrix@,
                    min_sum_config@,
                    setup.members(),
                    *permutations,
                    member_priors(min_sum_config@.priors, perturbed@, i),
                    supplies[i]@,
                    i as nat,
                )
        },
{
    let ghost common = setup.members();
    let ghost all_supplies = supplies@;
    let ghost others = perturbed@;
    let mut priors: Vec<Vec<i64>> = perturbed;
    priors.insert(0, min_sum_config.log_prior_ratios.clone());
    proof {
        assert forall|i: int| 0 <= i < priors.len() implies (#[trigger] priors[i])@
            == member_priors(min_sum_config@.priors, others, i) && priors[i].len()
            == check_matrix@.cols by {
            if i > 0 {
                assert(priors[i] == others[i - 1]);
            }
        }
        assert forall|i: int, v: int|
            0 <= i < priors.len() && 0 <= v < check_matrix@.cols implies (
        #[trigger] priors[i]@[v]) > i64::MIN by {
            if i > 0 {
                assert(others[i - 1]@[v] > i64::MIN);
            }
        }
    }
    let mode: EnsembleMode = ensemble_mode(setup.ensemble_mode);
    let repulsive: Option<RepulsiveConfig> = repulsive_config(
        mode,
        setup.repulsive_size,
        setup.repulsive_gamma_dist,
        setup.abs_llr_threshold,
        setup.pulse_per_leg,
        setup.start_leg,
        setup.unit,
    );
    let strategy: SelectionStrategy = selection_strategy(setup.selection_strategy);
    let max_index: Option<usize> = setup.selection_max_index;
    let unit: i64 = setup.unit;
    let options = MemberOptions {
        relay: RelayDecoderConfig {
            stopping_criterion: stopping_criterion(setup.stopping_criterion, setup.stop_nconv),
            ..setup.relay
        },
        repulsive_size: setup.repulsive_size,
        repulsive: setup.repulsive_gamma_dist.is_some(),
        abs_llr_threshold: setup.abs_llr_threshold,
        pulse_per_leg: setup.pulse_per_leg,
        start_leg: setup.start_leg,
        seed: setup.seed,
    };
    assert(options == common);
    match build_members(
        check_matrix,
        min_sum_config,
        &options,
        permutations,
        priors,
        supplies,
    ) {
        Ok(members) => {
            let ensemble: EnsembleDecoder<DrawnRelayDecoder> = EnsembleDecoder::new_with_mode(
                members,
                strategy,
                Some(min_sum_config.log_prior_ratios.clone()),
                Some(observable_matrix.clone()),
                max_index,
                mode,
                repulsive,
            );
            let runner: ObservableDecoderRunner<EnsembleDecoder<DrawnRelayDecoder>> =
                ObservableDecoderRunner::new(ensemble, observable_matrix, true, unit);
            proof {
                if permutations is None {
                    let m = runner.decoder.state();
                    assert forall|i: int|
                        0 <= i < m.children.len() implies DrawnRelayDecoder::ready(
                        #[trigger] m.children[i],
                    ) && DrawnRelayDecoder::code(m.children[i]) == check_matrix@ by {
                        let d = runner.decoder.decoders[i];
                        let c = d.relay.relay_config;
                        assert(m.children[i] == d.model());
                        assert(common.relay_of(i as nat, c));
                        assert(d.supply@ == all_supplies[i]@);
                        assert forall|k: int| 0 <= k < d.supply.len() implies c.supplied(
                            (#[trigger] d.supply@[k]).draws@,
                            check_matrix@.cols,
                        ) by {
                            assert(c.explicit_gammas is None ==> gains_drawn(
                                all_supplies[i]@[k].draws@,
                                c.num_sets,
                                check_matrix@.cols,
                            ));
                        }
                    }
                    assert(DrawnRelayDecoder::code(m.children[0]) == check_matrix@);
                    assert(ensemble_ready::<DrawnRelayDecoder>(m));
                }
            }
            proof {
                let e = runner.decoder;
                assert forall|n: nat|
                    (forall|i: int|
                        0 <= i < all_supplies.len() ==> (#[trigger] all_supplies[i]).len()
                            >= n) implies #[trigger] EnsembleDecoder::<
                    DrawnRelayDecoder,
                >::lasts(e.model(), n) by {
                    assert forall|i: int|
                        0 <= i < e.model().children.len() implies DrawnRelayDecoder::lasts(
                        #[trigger] e.model().children[i],
                        n,
                    ) by {
                        assert(e.model().children[i] == e.decoders[i].model());
                        assert(all_supplies[i].len() >= n);
                    }
                }
            }
            Ok(runner)
        },
        Err(e) => Err(e),
    }
}

/// The parameters of a rejection decoder, but for the priors.
#[derive(Clone, Debug)]
pub struct RejectionSetup<'a> {
    /// The relay decoder of every stage, but for when it stops; none is repulsive.
    pub relay: RelayDecoderConfig,
    /// When a stage stops, by its name.
    pub stopping_criterion: &'a str,
    pub stop_nconv: usize,
    /// Which errors get other priors, by its name.
    pub reweighting_mode: &'a str,
    /// How they are chosen, by its name.
    pub reweighting_selection: &'a str,
    /// The share of the errors that is chosen, as a fraction: what is above the line.
    pub k_numerator: u64,
    /// What is below the line.
    pub k_denominator: u64,
    /// The seed of the choice; zero for a random one.
    pub seed: u64,
    /// The unit of the fixed-point numbers.
    pub unit: i64,
}

impl RejectionSetup<'_> {
    /// The relay decoder of every stage.
    pub open spec fn stages(self) -> RelayDecoderConfig {
        RelayDecoderConfig {
            stopping_criterion: stopping_criterion_of(self.stopping_criterion@, self.stop_nconv),
            repulsive: false,
            abs_llr_threshold: None,
            pulse_per_leg: None,
            start_leg: None,
            ..self.relay
        }
    }

    /// How rejection works.
    pub open spec fn rejection(self) -> RejectionConfig {
        RejectionConfig {
            mode: reweighting_mode_of(self.reweighting_mode@),
            selection: reweighting_selection_of(self.reweighting_selection@),
            k_numerator: self.k_numerator,
            k_denominator: self.k_denominator,
            seed: self.seed,
        }
    }
}

/// A decoder of observables that rejects estimates which do not stand up to other priors.
/// `reweighted` holds the other prior of each variable.
pub fn with_rejection_decoder(
    check_matrix: SparseBitMatrix,
    observable_matrix: SparseBitMatrix,
    min_sum_config: MinSumDecoderConfig,
    setup: RejectionSetup,
    reweighted: Vec<i64>,
    draws: Vec<RelayDraws>,
    coins: Vec<Vec<Vec<bool>>>,
) -> (r: ObservableDecoderRunner<RejectionDecoder>)
    requires
        (RejectionModel {
            matrix: check_matrix@,
            observables: observable_matrix@,
            min_sum: min_sum_config@,
            relay: setup.stages(),
            reweighted: reweighted@,
            config: setup.rejection(),
            draws: draws@,
            coins: coins@,
        }).wf(),
        1 <= setup.unit <= 0x2000_0000_0000_0000,
    ensures
        r.wf(),
        r.observable_error_matrix == observable_matrix,
        r.include_decode_result,
        r.unit == setup.unit,
        r.decoder@ == (RejectionModel {
            matrix: check_matrix@,
            observables: observable_matrix@,
            min_sum: min_sum_config@,
            relay: setup.stages(),
            reweighted: reweighted@,
            config: RejectionConfig { seed: r.decoder.config.seed, ..setup.rejection() },
            draws: draws@,
            coins: coins@,
        }),
        setup.seed != 0 ==> r.decoder.config.seed == setup.seed,
{
    let ghost stages = setup.stages();
    let unit: i64 = setup.unit;
    let config = RejectionConfig {
        mode: reweighting_mode(setup.reweighting_mode),
        selection: reweighting_selection(setup.reweighting_selection),
        k_numerator: setup.k_numerator,
        k_denominator: setup.k_denominator,
        seed: setup.seed,
    };
    let relay = RelayDecoderConfig {
        stopping_criterion: stopping_criterion(setup.stopping_criterion, setup.stop_nconv),
        repulsive: false,
        abs_llr_threshold: None,
        pulse_per_leg: None,
        start_leg: None,
        ..setup.relay
    };
    assert(relay == stages);
    let decoder: RejectionDecoder = RejectionDecoder::new(
        check_matrix,
        observable_matrix.clone(),
        min_sum_config,
        relay,
        config,
        reweighted,
        draws,
        coins,
    );
    ObservableDecoderRunner::new(decoder, observable_matrix, true, unit)
}

} // verus!
