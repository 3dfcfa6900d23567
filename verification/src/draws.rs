//! Random numbers.

use vstd::prelude::*;

use rand::seq::SliceRandom;
use rand::{Rng, SeedableRng};

verus! {

/// The generator of random numbers, `rand::rngs::StdRng`. Nothing is claimed of what it
/// holds.
#[verifier::external_type_specification]
#[verifier::external_body]
pub struct ExStdRng(rand::rngs::StdRng);

/// Calls `rand::SeedableRng::seed_from_u64` for `StdRng`. Nothing is claimed of the numbers
/// that the generator will give.
#[verifier::external_body]
pub(crate) fn seeded(seed: u64) -> (r: rand::rngs::StdRng) {
    rand::rngs::StdRng::seed_from_u64(seed)
}

/// Calls `rand::random` for a `u64`. Nothing is claimed of the number.
#[verifier::external_body]
pub(crate) fn any_seed() -> (r: u64) {
    rand::random::<u64>()
}

/// Calls `rand::Rng::gen_range` on the range of numbers below `n`: the number lies in the
/// range. Which one it is depends on chance. The outside function panics on an empty range.
#[verifier::external_body]
pub(crate) fn number_below(rng: &mut rand::rngs::StdRng, n: usize) -> (r: usize)
    requires
        n > 0,
    ensures
        r < n,
{
    rng.gen_range(0..n)
}

/// Calls `rand::seq::SliceRandom::shuffle`, which swaps values and does nothing else: the
/// values stay, each as often as it was there. Which order comes out depends on chance.
#[verifier::external_body]
pub(crate) fn shuffle(values: &mut Vec<usize>, rng: &mut rand::rngs::StdRng)
    ensures
        final(values)@.to_multiset() == old(values)@.to_multiset(),
{
    values.shuffle(rng);
}

/// `count` numbers below `n`.
pub fn draw_numbers(rng: &mut rand::rngs::StdRng, n: usize, count: usize) -> (r: Vec<usize>)
    requires
        n > 0,
    ensures
        r.len() == count,
        forall|k: int| 0 <= k < count ==> (#[trigger] r[k]) < n,
{
    let mut out: Vec<usize> = Vec::new();
    while out.len() < count
        invariant
            n > 0,
            out.len() <= count,
            forall|k: int| 0 <= k < out.len() ==> (#[trigger] out[k]) < n,
        decreases count - out.len(),
    {
        let x: usize = number_below(rng, n);
        out.push(x);
    }
    out
}

/// The first `count` of the values in an order that depends on chance: each is one of the
/// values, and if these are distinct so are the chosen ones.
pub fn draw_values(rng: &mut rand::rngs::StdRng, values: &Vec<usize>, count: usize) -> (r: Vec<
    usize,
>)
    requires
        count <= values.len(),
    ensures
        r.len() == count,
        forall|k: int| 0 <= k < count ==> values@.contains(#[trigger] r[k]),
        values@.no_duplicates() ==> r@.no_duplicates(),
{
    let mut out: Vec<usize> = values.clone();
    shuffle(&mut out, rng);
    let ghost mixed = out@;
    proof {
        lemma_same_values(mixed, values@);
    }
    out.truncate(count);
    proof {
        assert forall|k: int| 0 <= k < count implies values@.contains(#[trigger] out@[k]) by {
            assert(out@[k] == mixed[k]);
            assert(mixed.contains(mixed[k]));
        }
    }
    out
}

/// Sequences that hold the same values equally often agree in length, in what they contain
/// and in whether a value occurs twice.
proof fn lemma_same_values(a: Seq<usize>, b: Seq<usize>)
    requires
        a.to_multiset() == b.to_multiset(),
    ensures
        a.len() == b.len(),
        forall|x: usize| a.contains(x) <==> b.contains(x),
        b.no_duplicates() ==> a.no_duplicates(),
{
    a.to_multiset_ensures();
    b.to_multiset_ensures();
    assert forall|x: usize| a.contains(x) <==> b.contains(x) by {
        assert(a.contains(x) <==> a.to_multiset().count(x) > 0);
        assert(b.contains(x) <==> b.to_multiset().count(x) > 0);
    }
    if b.no_duplicates() {
        b.lemma_multiset_has_no_duplicates();
        a.lemma_multiset_has_no_duplicates_conv();
    }
}

} // verus!
