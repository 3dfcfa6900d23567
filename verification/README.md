# relay_bp

Decoders for quantum LDPC codes, verified with Verus: min-sum belief propagation with memory
and the decoders built on it (relay, clipping, alternating legs, dual relay, disordered,
adaptive and generational search), localized statistics decoding, local bit flipping,
ensembles, rejection and the decoding of observables.

The library works in fixed point. Log-likelihood ratios and memory strengths are integers
with a common unit, and `i64::MAX` is infinity. Real numbers that are drawn at random are
handed to a decoder as lists, one for each decoding, which uses it up; those that come from a
transcendental function are handed to it as a table. The library itself tabulates only the
logistic function and draws only the errors that a rejection decoder reweighs.

* `src/` holds the decoders. Each has a model, a mathematical value that its view gives; the
  contracts say which model comes after which. Laws that relate several functions are proof
  functions whose names start with `law_`.
* `tests/` runs the decoders on small codes.
* `app/` turns probabilities into ratios, draws random numbers, runs batches in parallel and
  stores results.
