//! The parameter bundle of the scheme.

use vstd::prelude::*;

verus! {

/// Parameters of the GLWE scheme over `Z_q[x] / (x^n + 1)` with module
/// rank `k` and plaintext modulus `p`.
///
/// The Gaussian standard deviation of the error sampler is carried in
/// fixed point, in thousandths, so that the bundle stays within integer
/// arithmetic; the sampler that consumes it converts as it sees fit.
#[derive(Debug, Clone, Copy)]
pub struct FHEParams {
    /// Ciphertext modulus.
    pub q: i64,
    /// Plaintext modulus.
    pub p: i64,
    /// Ring degree: length of every coefficient vector.
    pub n: usize,
    /// Module rank: number of mask polynomials in keys and ciphertexts.
    pub k: usize,
    /// Advisory security level; not consumed by the core.
    pub security_level: u64,
    /// Standard deviation of the error distribution, in thousandths.
    pub std_dev_milli: i64,
}

impl FHEParams {
    /// The legal parameter region: `q > p >= 2`, `n >= 1`, `k >= 1`.
    /// These bounds also give `delta >= 1`.
    pub open spec fn valid(self) -> bool {
        &&& 2 <= self.p
        &&& self.p < self.q
        &&& 1 <= self.n
        &&& 1 <= self.k
    }

    /// The plaintext scaling factor `delta = floor(q / p)`.
    pub open spec fn delta_spec(self) -> int {
        self.q as int / self.p as int
    }

    /// Parameters for plain LWE: ring degree 1, module rank `k`.
    pub fn new_lwe(q: i64, p: i64, k: usize) -> (r: Self)
        ensures
            r == (FHEParams { q, p, k, n: 1usize, ..Self::default_spec() }),
    {
        Self { q, p, k, n: 1, ..Default::default() }
    }

    /// Parameters for RLWE: module rank 1, ring degree `n`.
    pub fn new_rlwe(q: i64, p: i64, n: usize) -> (r: Self)
        ensures
            r == (FHEParams { q, p, n, k: 1usize, ..Self::default_spec() }),
    {
        Self { q, p, n, k: 1, ..Default::default() }
    }

    /// Sets the module rank.
    pub fn set_complexity(&mut self, k: usize)
        ensures
            *final(self) == (FHEParams { k, ..*old(self) }),
    {
        self.k = k;
    }

    /// Sets the error standard deviation, in thousandths.
    pub fn set_standard_diviation(&mut self, std_dev_milli: i64)
        ensures
            *final(self) == (FHEParams { std_dev_milli, ..*old(self) }),
    {
        self.std_dev_milli = std_dev_milli;
    }

    /// The scaling factor `delta` that embeds a plaintext symbol into a
    /// ciphertext coefficient.
    pub fn delta(&self) -> (r: i64)
        requires
            self.valid(),
        ensures
            r as int == self.delta_spec(),
            1 <= r <= self.q,
    {
        proof {
            vstd::arithmetic::div_mod::lemma_div_by_self(self.p as int);
            vstd::arithmetic::div_mod::lemma_div_is_ordered(self.p as int, self.q as int, self.p as int);
            vstd::arithmetic::div_mod::lemma_div_nonincreasing(self.q as int, self.p as int);
        }
        self.q / self.p
    }

    /// The defaults used by the constructors.
    pub open spec fn default_spec() -> Self {
        FHEParams {
            q: 1024,
            p: 2,
            k: 1,
            n: 8,
            security_level: 256,
            std_dev_milli: 3200,
        }
    }
}

impl Default for FHEParams {
    /// Small default parameters, with the default standard deviation 3.2.
    fn default() -> (r: Self)
        ensures
            r == Self::default_spec(),
    {
        FHEParams {
            q: 1024,
            p: 2,
            k: 1,
            n: 8,
            security_level: 256,
            std_dev_milli: 3200,
        }
    }
}

} // verus!
