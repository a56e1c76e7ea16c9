//! Sampling of coefficient vectors from a borrowed randomness source.
//!
//! The scheme draws its uniform coefficients here. The discrete Gaussian
//! of the error distribution is float-valued, so its raw samples are drawn
//! by the caller that owns the randomness and enter the scheme as plain
//! integer vectors.

use vstd::prelude::*;

verus! {

/// `rand`'s seedable standard generator, carried opaquely as the
/// randomness source that key generation and encryption borrow.
#[verifier::external_type_specification]
#[verifier::external_body]
pub struct ExStdRng(rand::rngs::StdRng);

/// Relies on `rand::Rng::gen_range` over `lo..hi`: returns a value of the
/// half-open interval `[lo, hi)`, and panics on an empty range, hence the
/// precondition.
#[verifier::external_body]
fn rand_range_i64(rng: &mut rand::rngs::StdRng, lo: i64, hi: i64) -> (r: i64)
    requires
        lo < hi,
    ensures
        lo <= r < hi,
{
    rand::Rng::gen_range(rng, lo..hi)
}

/// The integer distributions the scheme draws coefficients from.
#[derive(Debug, Clone, Copy)]
pub enum FHESamplingMethod {
    /// Uniform on the half-open interval `[lo, hi)`.
    Uniform(i64, i64),
    /// Uniform on `{0, 1}`.
    UniformBinary,
    /// Uniform on `{-1, 0, 1}`.
    UniformTernary,
}

impl FHESamplingMethod {
    /// The lower bound of the values this method can produce.
    pub open spec fn lo_spec(self) -> int {
        match self {
            FHESamplingMethod::Uniform(l, _) => l as int,
            FHESamplingMethod::UniformBinary => 0,
            FHESamplingMethod::UniformTernary => -1,
        }
    }

    /// One past the largest value this method can produce.
    pub open spec fn hi_spec(self) -> int {
        match self {
            FHESamplingMethod::Uniform(_, h) => h as int,
            FHESamplingMethod::UniformBinary => 2,
            FHESamplingMethod::UniformTernary => 2,
        }
    }
}

/// Draws `size` coefficients, each uniform on `[low, high)`.
pub fn fhe_sampling_uniform(rng: &mut rand::rngs::StdRng, low: i64, high: i64, size: usize) -> (r:
    Vec<i64>)
    requires
        low < high,
    ensures
        r@.len() == size,
        forall|i: int| 0 <= i < size ==> low <= #[trigger] r@[i] < high,
{
    let mut coeff: Vec<i64> = Vec::new();
    let mut t: usize = 0;
    while t < size
        invariant
            t <= size,
            low < high,
            coeff@.len() == t,
            forall|i: int| 0 <= i < t ==> low <= #[trigger] coeff@[i] < high,
        decreases size - t,
    {
        coeff.push(rand_range_i64(rng, low, high));
        t += 1;
    }
    coeff
}

/// Draws a length-`size` coefficient vector from the given distribution.
pub fn fhe_sample(rng: &mut rand::rngs::StdRng, sampling_method: FHESamplingMethod, size: usize) -> (r: Vec<i64>)
    requires
        sampling_method matches FHESamplingMethod::Uniform(l, h) ==> l < h,
    ensures
        r@.len() == size,
        forall|i: int|
            0 <= i < size ==> sampling_method.lo_spec() <= #[trigger] r@[i] as int
                && (r@[i] as int) < sampling_method.hi_spec(),
{
    match sampling_method {
        FHESamplingMethod::UniformBinary => fhe_sampling_uniform(rng, 0, 2, size),
        FHESamplingMethod::UniformTernary => fhe_sampling_uniform(rng, -1, 2, size),
        FHESamplingMethod::Uniform(l, h) => fhe_sampling_uniform(rng, l, h, size),
    }
}

} // verus!
