//! The first population: perturbed priors.

use vstd::prelude::*;

use super::config::InitPerturbationMode;
use crate::arith::{bound, divide, lemma_product_bound, narrow, trunc_div, GAIN_LIMIT};

verus! {

/// A perturbation of the priors.
#[derive(Debug)]
pub enum PerturbationState {
    /// None.
    Unperturbed,
    /// A number to be added to each prior.
    AdditiveGaussian(Vec<i64>),
    /// A fixed-point number to multiply each prior by.
    MultiplicativeUniform(Vec<i64>),
}

/// What a perturbation holds.
#[verifier::ext_equal]
pub enum PerturbationModel {
    Unperturbed,
    Additive(Seq<i64>),
    Multiplicative(Seq<i64>),
}

impl View for PerturbationState {
    type V = PerturbationModel;

    open spec fn view(&self) -> PerturbationModel {
        match *self {
            PerturbationState::Unperturbed => PerturbationModel::Unperturbed,
            PerturbationState::AdditiveGaussian(noise) => PerturbationModel::Additive(noise@),
            PerturbationState::MultiplicativeUniform(scale) => PerturbationModel::Multiplicative(
                scale@,
            ),
        }
    }
}

impl Clone for PerturbationState {
    fn clone(&self) -> (r: Self)
        ensures
            r@ == self@,
    {
        match self {
            PerturbationState::Unperturbed => PerturbationState::Unperturbed,
            PerturbationState::AdditiveGaussian(noise) => PerturbationState::AdditiveGaussian(
                noise.clone(),
            ),
            PerturbationState::MultiplicativeUniform(scale) =>
            PerturbationState::MultiplicativeUniform(scale.clone()),
        }
    }
}

/// A draw for variable `v`; zero where nothing was drawn.
pub open spec fn draw_at(draws: Seq<i64>, v: int) -> int {
    if 0 <= v < draws.len() {
        draws[v] as int
    } else {
        0
    }
}

/// A ratio with `delta` added to it. An infinite ratio stays infinite.
pub open spec fn shifted(ratio: int, delta: int) -> int {
    if ratio == i64::MAX {
        ratio
    } else {
        bound(ratio + delta, i64::MAX as int)
    }
}

/// A ratio multiplied by a fixed-point number. An infinite ratio stays infinite where the
/// factor is positive.
pub open spec fn stretched(ratio: int, factor: int, one: int) -> int {
    if ratio == i64::MAX && factor > 0 {
        ratio
    } else {
        bound(trunc_div(ratio * factor, one), i64::MAX as int)
    }
}

/// The priors under a perturbation. Variables for which nothing was drawn keep their prior.
pub open spec fn perturbed(prior: Seq<i64>, state: PerturbationModel, one: int) -> Seq<i64> {
    match state {
        PerturbationModel::Unperturbed => prior,
        PerturbationModel::Additive(noise) => Seq::new(
            prior.len(),
            |v: int|
                if v < noise.len() {
                    shifted(prior[v] as int, noise[v] as int) as i64
                } else {
                    prior[v]
                },
        ),
        PerturbationModel::Multiplicative(scale) => Seq::new(
            prior.len(),
            |v: int|
                if v < scale.len() {
                    stretched(prior[v] as int, scale[v] as int, one) as i64
                } else {
                    prior[v]
                },
        ),
    }
}

/// The perturbation that the mode makes of what was drawn.
pub open spec fn perturbation_of(mode: InitPerturbationMode, values: Seq<i64>) -> PerturbationModel {
    match mode {
        InitPerturbationMode::AdditiveGaussian => PerturbationModel::Additive(values),
        InitPerturbationMode::MultiplicativeUniform => PerturbationModel::Multiplicative(values),
    }
}

/// Adds to a ratio.
pub fn shift_ratio(ratio: i64, delta: i128) -> (r: i64)
    requires
        -0x1_0000_0000_0000_0000 <= delta <= 0x1_0000_0000_0000_0000,
    ensures
        r == shifted(ratio as int, delta as int),
        r > i64::MIN,
{
    if ratio == i64::MAX {
        ratio
    } else {
        narrow((ratio as i128) + delta, i64::MAX)
    }
}

/// Multiplies a ratio by a fixed-point number.
pub fn stretch_ratio(ratio: i64, factor: i64, one: i64) -> (r: i64)
    requires
        1 <= one <= GAIN_LIMIT,
    ensures
        r == stretched(ratio as int, factor as int, one as int),
        r > i64::MIN,
{
    if ratio == i64::MAX && factor > 0 {
        ratio
    } else {
        proof {
            lemma_product_bound(
                ratio as int,
                factor as int,
                0x8000_0000_0000_0000,
                0x8000_0000_0000_0000,
            );
        }
        narrow(divide((ratio as i128) * (factor as i128), one), i64::MAX)
    }
}

/// The perturbation that the mode makes of what was drawn.
pub fn perturbation_state(mode: InitPerturbationMode, values: &Vec<i64>) -> (r: PerturbationState)
    ensures
        r@ == perturbation_of(mode, values@),
{
    match mode {
        InitPerturbationMode::AdditiveGaussian => PerturbationState::AdditiveGaussian(
            values.clone(),
        ),
        InitPerturbationMode::MultiplicativeUniform => PerturbationState::MultiplicativeUniform(
            values.clone(),
        ),
    }
}

/// Applies a perturbation to the priors.
pub fn apply_perturbation_state(prior_llr: &Vec<i64>, state: &PerturbationState, one: i64) -> (r:
    Vec<i64>)
    requires
        1 <= one <= GAIN_LIMIT,
    ensures
        r@ == perturbed(prior_llr@, state@, one as int),
        r.len() == prior_llr.len(),
        (forall|v: int| 0 <= v < prior_llr.len() ==> prior_llr[v] > i64::MIN) ==> forall|v: int|
            0 <= v < r.len() ==> r[v] > i64::MIN,
{
    let mut out: Vec<i64> = Vec::new();
    let mut v: usize = 0;
    while v < prior_llr.len()
        invariant
            1 <= one <= GAIN_LIMIT,
            v <= prior_llr.len(),
            out.len() == v,
            forall|u: int| 0 <= u < v ==> out[u] == perturbed(prior_llr@, state@, one as int)[u],
            forall|u: int| 0 <= u < v && prior_llr[u] > i64::MIN ==> out[u] > i64::MIN,
        decreases prior_llr.len() - v,
    {
        let x: i64 = match state {
            PerturbationState::Unperturbed => prior_llr[v],
            PerturbationState::AdditiveGaussian(noise) => if v < noise.len() {
                shift_ratio(prior_llr[v], noise[v] as i128)
            } else {
                prior_llr[v]
            },
            PerturbationState::MultiplicativeUniform(scale) => if v < scale.len() {
                stretch_ratio(prior_llr[v], scale[v], one)
            } else {
                prior_llr[v]
            },
        };
        out.push(x);
        v += 1;
    }
    assert(out@ =~= perturbed(prior_llr@, state@, one as int));
    out
}

/// The priors under the perturbation that the mode makes of what was drawn.
pub fn sample_perturbed_llr(
    prior_llr: &Vec<i64>,
    mode: InitPerturbationMode,
    values: &Vec<i64>,
    one: i64,
) -> (r: Vec<i64>)
    requires
        1 <= one <= GAIN_LIMIT,
    ensures
        r@ == perturbed(prior_llr@, perturbation_of(mode, values@), one as int),
{
    let state = perturbation_state(mode, values);
    apply_perturbation_state(prior_llr, &state, one)
}

/// One member of the first population for each draw: its priors and its perturbation.
pub fn initialize_llr_population(
    prior_llr: &Vec<i64>,
    mode: InitPerturbationMode,
    draws: &Vec<Vec<i64>>,
    one: i64,
) -> (r: Vec<(Vec<i64>, PerturbationState)>)
    requires
        1 <= one <= GAIN_LIMIT,
    ensures
        r.len() == draws.len(),
        forall|m: int|
            0 <= m < draws.len() ==> (#[trigger] r[m]).1@ == perturbation_of(mode, draws[m]@)
                && r[m].0@ == perturbed(prior_llr@, perturbation_of(mode, draws[m]@), one as int),
        (forall|v: int| 0 <= v < prior_llr.len() ==> prior_llr[v] > i64::MIN) ==> forall|m: int, v: int|
            0 <= m < r.len() && 0 <= v < prior_llr.len() ==> (#[trigger] r[m].0[v]) > i64::MIN,
{
    let mut out: Vec<(Vec<i64>, PerturbationState)> = Vec::new();
    let mut m: usize = 0;
    while m < draws.len()
        invariant
            1 <= one <= GAIN_LIMIT,
            m <= draws.len(),
            out.len() == m,
            forall|k: int|
                0 <= k < m ==> (#[trigger] out[k]).1@ == perturbation_of(mode, draws[k]@)
                    && out[k].0@ == perturbed(
                    prior_llr@,
                    perturbation_of(mode, draws[k]@),
                    one as int,
                ),
            (forall|v: int| 0 <= v < prior_llr.len() ==> prior_llr[v] > i64::MIN) ==> forall|
                k: int,
                v: int,
            |
                0 <= k < m && 0 <= v < prior_llr.len() ==> (#[trigger] out[k].0[v]) > i64::MIN,
        decreases draws.len() - m,
    {
        let state = perturbation_state(mode, &draws[m]);
        let llr = apply_perturbation_state(prior_llr, &state, one);
        out.push((llr, state));
        m += 1;
    }
    out
}

} // verus!
