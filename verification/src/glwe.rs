//! The GLWE scheme: key generation, encryption, decryption, and the
//! homomorphic operations.
//!
//! Uniform randomness is drawn from a borrowed `rand` generator; the raw
//! samples of the float-valued Gaussian error distribution are handed in
//! by the caller as plain integer vectors and shaped here, so that all
//! arithmetic on them stays verified.

use vstd::prelude::*;
use vstd::arithmetic::div_mod::{
    lemma_mod_twice, lemma_fundamental_div_mod, lemma_fundamental_div_mod_converse_div,
    lemma_mul_mod_noop_right, lemma_div_decreases, lemma_div_is_ordered_by_denominator,
    lemma_div_multiples_vanish, lemma_small_mod,
};
use crate::fhe::FHEParams;
use crate::ring::{
    binary_poly, centered_rep, dot_q, ints_of, pad_to, poly_add_q, poly_mul_q, poly_scale_q,
    poly_wf, polys_of, polys_wf, round_div, seq_add, sym_rem, zero_poly, lemma_dot_q_prefix,
    lemma_pad_to_id, lemma_poly_mul_q_add_right, lemma_poly_mul_q_congruent_right,
    lemma_poly_mul_q_zero,
};
use crate::sampling::{fhe_sample, FHESamplingMethod};
use crate::utils::{center_to_signed, div_round_signed, mod_q_i64, poly_add, poly_mul};
use crate::codec::{encode_base_p, spec_encode, chunk_value, lemma_chunk_value_push};
use vstd::arithmetic::power::pow;

verus! {

/// A GLWE ciphertext: `k` mask polynomials `d` and one body polynomial `b`.
#[derive(Debug, Clone)]
pub struct GLWECiphertext {
    pub d: Vec<Vec<i64>>,
    pub b: Vec<i64>,
}

/// A GLWE secret key: `k` polynomials drawn from the secret distribution.
#[derive(Debug, Clone)]
pub struct GLWESecretKey {
    pub s: Vec<Vec<i64>>,
}

/// A GLWE public key: `k` uniform polynomials `a` and the body
/// `b = sum a_i * s_i + e`.
#[derive(Debug, Clone)]
pub struct GLWEPublicKey {
    pub a: Vec<Vec<i64>>,
    pub b: Vec<i64>,
}

impl GLWECiphertext {
    /// Mask arity `k` and every coefficient vector of length `n`.
    pub open spec fn dims(self, k: nat, n: nat) -> bool {
        &&& self.d@.len() == k
        &&& forall|i: int| 0 <= i < k ==> #[trigger] self.d@[i]@.len() == n
        &&& self.b@.len() == n
    }

    /// Well-formed: right lengths and every coefficient canonical.
    pub open spec fn wf(self, k: nat, n: nat, q: int) -> bool {
        &&& polys_wf(polys_of(self.d@), k, n, q)
        &&& poly_wf(ints_of(self.b@), n, q)
    }

    /// The all-zero ciphertext.
    fn zero(params: &FHEParams) -> (r: Self)
        requires
            params.q >= 1,
        ensures
            r.wf(params.k as nat, params.n as nat, params.q as int),
            polys_of(r.d@) == Seq::new(params.k as nat, |i: int| zero_poly(params.n as nat)),
            ints_of(r.b@) == zero_poly(params.n as nat),
    {
        let b = zero_coeffs(params.n);
        let mut d: Vec<Vec<i64>> = Vec::new();
        let mut i: usize = 0;
        while i < params.k
            invariant
                i <= params.k,
                d@.len() == i,
                forall|t: int| 0 <= t < i ==> ints_of(#[trigger] d@[t]@) == zero_poly(
                    params.n as nat,
                ),
            decreases params.k - i,
        {
            d.push(zero_coeffs(params.n));
            i += 1;
        }
        let r = GLWECiphertext { d, b };
        proof {
            assert(polys_of(r.d@) =~= Seq::new(params.k as nat, |i: int| zero_poly(params.n as nat)));
            assert forall|i: int| 0 <= i < params.k implies poly_wf(
                #[trigger] polys_of(r.d@)[i],
                params.n as nat,
                params.q as int,
            ) by {
                assert(polys_of(r.d@)[i] == zero_poly(params.n as nat));
            }
        }
        r
    }
}

impl GLWESecretKey {
    /// Arity `k`, length `n`, every coefficient a bit.
    pub open spec fn wf(self, k: nat, n: nat) -> bool {
        &&& self.s@.len() == k
        &&& forall|i: int| 0 <= i < k ==> binary_poly(#[trigger] polys_of(self.s@)[i], n)
    }

    /// Arity and lengths only.
    pub open spec fn dims(self, k: nat, n: nat) -> bool {
        &&& self.s@.len() == k
        &&& forall|i: int| 0 <= i < k ==> #[trigger] self.s@[i]@.len() == n
    }

    /// Packs a binary secret key to bytes: each polynomial in turn, eight
    /// coefficients per byte, most significant bit first; a final partial
    /// byte is padded with low-order zero bits.
    #[verifier::loop_isolation(false)]
    pub fn to_bytes(&self) -> (bytes: Vec<u8>)
        requires
            forall|i: int| 0 <= i < self.s@.len() ==> binary_poly(
                #[trigger] polys_of(self.s@)[i],
                self.s@[i]@.len() as nat,
            ),
        ensures
            bytes@.len() == packed_key_len(self.s@),
            forall|j: int| 0 <= j < bytes@.len() ==> #[trigger] bytes@[j] as int == packed_key_byte(
                self.s@,
                j,
            ),
    {
        let mut bytes: Vec<u8> = Vec::new();
        let mut i: usize = 0;
        while i < self.s.len()
            invariant
                i <= self.s@.len(),
                forall|t: int| 0 <= t < self.s@.len() ==> binary_poly(
                    #[trigger] polys_of(self.s@)[t],
                    self.s@[t]@.len() as nat,
                ),
                bytes@.len() == packed_prefix_len(self.s@, i as nat),
                forall|j: int| 0 <= j < bytes@.len() ==> #[trigger] bytes@[j] as int
                    == packed_key_byte(self.s@, j),
            decreases self.s@.len() - i,
        {
            let si: &Vec<i64> = &self.s[i];
            let m = si.len();
            let ghost bits = ints_of(si@);
            proof {
                assert(polys_of(self.s@)[i as int] == bits);
                lemma_packed_prefix_len_step(self.s@, i as nat);
            }
            // One byte per eight coefficients, rounded up.
            let bpp: usize = if m % 8 == 0 {
                m / 8
            } else {
                m / 8 + 1
            };
            proof {
                lemma_fundamental_div_mod(m as int, 8);
                if m % 8 == 0 {
                    lemma_fundamental_div_mod_converse_div(m as int + 7, 8, m as int / 8, 7);
                } else {
                    lemma_fundamental_div_mod_converse_div(
                        m as int + 7,
                        8,
                        m as int / 8 + 1,
                        m as int % 8 - 1,
                    );
                }
                assert(bpp == poly_byte_len(m as nat));
                lemma_fundamental_div_mod(m as int + 7, 8);
                assert(bpp as int * 8 <= m + 7);
            }
            let mut c: usize = 0;
            while c < bpp
                invariant
                    c <= bpp,
                    bpp == poly_byte_len(m as nat),
                    bpp as int * 8 <= m + 7,
                    i < self.s@.len(),
                    bits == ints_of(self.s@[i as int]@),
                    m == self.s@[i as int]@.len(),
                    binary_poly(bits, m as nat),
                    bytes@.len() == packed_prefix_len(self.s@, i as nat) + c,
                    forall|j: int| 0 <= j < bytes@.len() ==> #[trigger] bytes@[j] as int
                        == packed_key_byte(self.s@, j),
                decreases bpp - c,
            {
                proof {
                    lemma_fundamental_div_mod(m as int + 7, 8);
                    assert(c as int * 8 <= bpp as int * 8 - 8) by (nonlinear_arith)
                        requires
                            c as int <= bpp as int - 1,
                    ;
                }
                let base: usize = c * 8;
                let mut byte: i64 = 0;
                let mut t: usize = 0;
                while t < 8
                    invariant
                        t <= 8,
                        i < self.s@.len(),
                        base == c * 8,
                        base < m,
                        bits == ints_of(self.s@[i as int]@),
                        m == self.s@[i as int]@.len(),
                        binary_poly(bits, m as nat),
                        0 <= byte < bits_bound(t as nat),
                        bits_bound(t as nat) <= 256,
                        byte as int == packed_byte(bits, 8 * (c as int), t as nat),
                    decreases 8 - t,
                {
                    let bit: i64 = if t < m - base {
                        let bv = si[base + t];
                        proof {
                            assert(bv as int == bits[base + t]);
                        }
                        bv
                    } else {
                        0
                    };
                    proof {
                        lemma_bits_bound_table();
                        assert(t == 0 || t == 1 || t == 2 || t == 3 || t == 4 || t == 5 || t == 6
                            || t == 7);
                        assert(bits_bound((t + 1) as nat) == 2 * bits_bound(t as nat));
                        assert(bits_bound((t + 1) as nat) <= 256);
                        assert(bit == 0 || bit == 1);
                    }
                    byte = byte * 2 + bit;
                    t += 1;
                }
                bytes.push(byte as u8);
                proof {
                    lemma_bits_bound_table();
                    let j = bytes@.len() - 1;
                    lemma_packed_key_byte_locate(self.s@, i as nat, c as nat);
                    assert(bytes@[j] as int == packed_key_byte(self.s@, j));
                }
                c += 1;
            }
            i += 1;
        }
        bytes
    }
}

impl GLWEPublicKey {
    /// Well-formed: arity `k`, lengths `n`, canonical coefficients.
    pub open spec fn wf(self, k: nat, n: nat, q: int) -> bool {
        &&& polys_wf(polys_of(self.a@), k, n, q)
        &&& poly_wf(ints_of(self.b@), n, q)
    }
}

/// The number of bytes a length-`n` polynomial packs to: one byte per
/// eight coefficients, rounded up.
pub open spec fn poly_byte_len(n: nat) -> nat {
    ((n + 7) / 8) as nat
}

/// Total packed length of the first `m` polynomials of a key.
pub open spec fn packed_prefix_len(s: Seq<Vec<i64>>, m: nat) -> nat
    decreases m,
{
    if m == 0 {
        0
    } else {
        packed_prefix_len(s, (m - 1) as nat) + poly_byte_len(s[m - 1]@.len() as nat)
    }
}

/// Total packed length of a key.
pub open spec fn packed_key_len(s: Seq<Vec<i64>>) -> nat {
    packed_prefix_len(s, s.len())
}

/// An upper bound for a number assembled from `t` bits: `2^t`, spelled
/// out recursively.
pub open spec fn bits_bound(t: nat) -> int
    decreases t,
{
    if t == 0 {
        1
    } else {
        2 * bits_bound((t - 1) as nat)
    }
}

/// The values of `bits_bound` up to a whole byte.
proof fn lemma_bits_bound_table()
    ensures
        bits_bound(0) == 1,
        bits_bound(1) == 2,
        bits_bound(2) == 4,
        bits_bound(3) == 8,
        bits_bound(4) == 16,
        bits_bound(5) == 32,
        bits_bound(6) == 64,
        bits_bound(7) == 128,
        bits_bound(8) == 256,
{
    reveal_with_fuel(bits_bound, 9);
}

/// The first `t` bits starting at `start`, most significant first, read
/// as a number; bits beyond the end of the vector read as zero.
pub open spec fn packed_byte(bits: Seq<int>, start: int, t: nat) -> int
    decreases t,
{
    if t == 0 {
        0
    } else {
        packed_byte(bits, start, (t - 1) as nat) * 2 + (if 0 <= start + t - 1 < bits.len() {
            bits[start + t - 1]
        } else {
            0
        })
    }
}

/// Byte `j` of the packed key: found by walking the polynomials in order.
pub open spec fn packed_key_byte(s: Seq<Vec<i64>>, j: int) -> int
    decreases s.len(),
{
    if s.len() == 0 {
        0
    } else if j < poly_byte_len(s[0]@.len() as nat) {
        packed_byte(ints_of(s[0]@), 8 * j, 8)
    } else {
        packed_key_byte(s.drop_first(), j - poly_byte_len(s[0]@.len() as nat))
    }
}

/// Walking `packed_prefix_len` forward one polynomial.
proof fn lemma_packed_prefix_len_step(s: Seq<Vec<i64>>, m: nat)
    requires
        m < s.len(),
    ensures
        packed_prefix_len(s, m + 1) == packed_prefix_len(s, m) + poly_byte_len(
            s[m as int]@.len() as nat,
        ),
{
}

/// A polynomial of length `m` is exhausted exactly when `c` bytes with
/// `c * 8` in `[m, m + 8)` have been written: then `c` is its byte count.
proof fn lemma_poly_byte_len_exact(m: nat, c: nat)
    requires
        c * 8 >= m,
        c * 8 <= m + 7,
    ensures
        c == poly_byte_len(m),
{
    vstd::arithmetic::div_mod::lemma_fundamental_div_mod_converse_div(
        m as int + 7,
        8,
        c as int,
        m as int + 7 - c as int * 8,
    );
}

/// Byte `c` of polynomial `i` sits at stream index
/// `packed_prefix_len(s, i) + c` and packs the bits starting at `8 * c`.
proof fn lemma_packed_key_byte_locate(s: Seq<Vec<i64>>, i: nat, c: nat)
    requires
        i < s.len(),
        c < poly_byte_len(s[i as int]@.len() as nat),
    ensures
        packed_key_byte(s, packed_prefix_len(s, i) + c as int) == packed_byte(
            ints_of(s[i as int]@),
            8 * (c as int),
            8,
        ),
    decreases i,
{
    if i == 0 {
    } else {
        lemma_packed_key_byte_locate(s.drop_first(), (i - 1) as nat, c);
        lemma_packed_prefix_len_shift(s, i);
        assert(s.drop_first()[i - 1] == s[i as int]);
    }
}

/// Dropping the first polynomial shifts prefix lengths by its byte count.
proof fn lemma_packed_prefix_len_shift(s: Seq<Vec<i64>>, m: nat)
    requires
        1 <= m <= s.len(),
    ensures
        packed_prefix_len(s, m) == poly_byte_len(s[0]@.len() as nat) + packed_prefix_len(
            s.drop_first(),
            (m - 1) as nat,
        ),
    decreases m,
{
    let d = s.drop_first();
    if m == 1 {
        assert(packed_prefix_len(s, 1) == packed_prefix_len(s, 0) + poly_byte_len(
            s[0]@.len() as nat,
        ));
        assert(packed_prefix_len(d, 0) == 0);
    } else {
        lemma_packed_prefix_len_shift(s, (m - 1) as nat);
        assert(d[m - 2] == s[m - 1]);
        assert(packed_prefix_len(s, m) == packed_prefix_len(s, (m - 1) as nat) + poly_byte_len(
            s[m - 1]@.len() as nat,
        ));
        assert(packed_prefix_len(d, (m - 1) as nat) == packed_prefix_len(d, (m - 2) as nat)
            + poly_byte_len(d[m - 2]@.len() as nat));
    }
}

/// A fresh all-zero coefficient vector.
fn zero_coeffs(n: usize) -> (r: Vec<i64>)
    ensures
        ints_of(r@) == zero_poly(n as nat),
        r@.len() == n,
{
    let mut r: Vec<i64> = Vec::new();
    let mut t: usize = 0;
    while t < n
        invariant
            t <= n,
            r@.len() == t,
            forall|j: int| 0 <= j < t ==> #[trigger] r@[j] == 0i64,
        decreases n - t,
    {
        r.push(0i64);
        t += 1;
    }
    proof {
        assert(ints_of(r@) =~= zero_poly(n as nat));
    }
    r
}

/// Coefficient-wise sum modulo `q` of two equal-length vectors.
fn add_mod_vec(q: i64, x: &Vec<i64>, y: &Vec<i64>) -> (r: Vec<i64>)
    requires
        q >= 1,
        x@.len() == y@.len(),
    ensures
        ints_of(r@) == poly_add_q(ints_of(x@), ints_of(y@), q as int),
        r@.len() == x@.len(),
        forall|i: int| 0 <= i < r@.len() ==> 0 <= #[trigger] r@[i] < q,
{
    let mut r: Vec<i64> = Vec::new();
    let mut i: usize = 0;
    while i < x.len()
        invariant
            i <= x@.len(),
            x@.len() == y@.len(),
            q >= 1,
            r@.len() == i,
            forall|j: int| 0 <= j < i ==> #[trigger] r@[j] as int == (x@[j] as int + y@[j] as int)
                % (q as int),
            forall|j: int| 0 <= j < i ==> 0 <= #[trigger] r@[j] < q,
        decreases x@.len() - i,
    {
        r.push(mod_q_i64(x[i] as i128 + y[i] as i128, q));
        i += 1;
    }
    proof {
        assert(ints_of(r@) =~= poly_add_q(ints_of(x@), ints_of(y@), q as int));
    }
    r
}

/// Coefficient-wise scaling modulo `q`.
fn scale_mod_vec(q: i64, x: &Vec<i64>, c: i64) -> (r: Vec<i64>)
    requires
        q >= 1,
    ensures
        ints_of(r@) == poly_scale_q(ints_of(x@), c as int, q as int),
        r@.len() == x@.len(),
        forall|i: int| 0 <= i < r@.len() ==> 0 <= #[trigger] r@[i] < q,
{
    let mut r: Vec<i64> = Vec::new();
    let mut i: usize = 0;
    while i < x.len()
        invariant
            i <= x@.len(),
            q >= 1,
            r@.len() == i,
            forall|j: int| 0 <= j < i ==> #[trigger] r@[j] as int == (c as int * x@[j] as int) % (
            q as int),
            forall|j: int| 0 <= j < i ==> 0 <= #[trigger] r@[j] < q,
        decreases x@.len() - i,
    {
        let xi: i64 = x[i];
        proof {
            assert(-0x4000_0000_0000_0000_0000_0000_0000_0000 <= (c as int) * (xi as int)
                <= 0x4000_0000_0000_0000_0000_0000_0000_0000) by (nonlinear_arith);
        }
        r.push(mod_q_i64((c as i128) * (xi as i128), q));
        i += 1;
    }
    proof {
        assert(ints_of(r@) =~= poly_scale_q(ints_of(x@), c as int, q as int));
    }
    r
}

/// The shaped error: every raw sample reduced by the truncating signed
/// remainder modulo `h = delta / 2`, so that its magnitude stays below
/// `delta / 2`.
pub open spec fn error_clamp(raw: Seq<int>, h: int) -> Seq<int> {
    Seq::new(raw.len(), |i: int| sym_rem(raw[i], h))
}

/// The GLWE context: the parameter bundle and the distribution secret
/// keys are drawn from.
#[derive(Debug, Clone)]
pub struct GLWECrypto {
    pub params: FHEParams,
    pub sec_sampling_method: FHESamplingMethod,
}

impl GLWECrypto {
    /// A context over the given parameters, with the uniform-binary secret
    /// distribution.
    pub fn new(params: FHEParams) -> (r: Self)
        ensures
            r.params == params,
            r.sec_sampling_method is UniformBinary,
    {
        Self { params, sec_sampling_method: FHESamplingMethod::UniformBinary }
    }

    /// Shapes a vector of raw error samples: each coefficient is reduced
    /// modulo `delta / 2` with the truncating signed remainder, which caps
    /// its magnitude strictly below `delta / 2`.
    fn gen_error(&self, raw: &Vec<i64>) -> (e: Vec<i64>)
        requires
            self.params.valid(),
            self.params.delta_spec() >= 2,
        ensures
            ints_of(e@) == error_clamp(ints_of(raw@), self.params.delta_spec() / 2),
            e@.len() == raw@.len(),
    {
        let h = self.delta_exec() / 2;
        let mut e: Vec<i64> = Vec::new();
        let mut i: usize = 0;
        while i < raw.len()
            invariant
                i <= raw@.len(),
                h as int == self.params.delta_spec() / 2,
                h >= 1,
                e@.len() == i,
                forall|j: int| 0 <= j < i ==> #[trigger] e@[j] as int == sym_rem(
                    raw@[j] as int,
                    h as int,
                ),
            decreases raw@.len() - i,
        {
            e.push(raw[i] % h);
            i += 1;
        }
        proof {
            assert(ints_of(e@) =~= error_clamp(ints_of(raw@), h as int));
        }
        e
    }

    /// The scaling factor of the context's parameters.
    fn delta_exec(&self) -> (r: i64)
        requires
            self.params.valid(),
        ensures
            r as int == self.params.delta_spec(),
            1 <= r <= self.params.q,
    {
        self.params.delta()
    }

    /// Draws the `k` polynomials of a secret key from the context's secret
    /// distribution.
    fn gen_secret_key(&self, rng: &mut rand::rngs::StdRng) -> (sk: GLWESecretKey)
        requires
            self.sec_sampling_method matches FHESamplingMethod::Uniform(l, h) ==> l < h,
        ensures
            sk.dims(self.params.k as nat, self.params.n as nat),
            self.sec_sampling_method is UniformBinary ==> sk.wf(
                self.params.k as nat,
                self.params.n as nat,
            ),
    {
        let mut s: Vec<Vec<i64>> = Vec::new();
        let mut i: usize = 0;
        while i < self.params.k
            invariant
                i <= self.params.k,
                s@.len() == i,
                self.sec_sampling_method matches FHESamplingMethod::Uniform(l, h) ==> l < h,
                forall|t: int| 0 <= t < i ==> #[trigger] s@[t]@.len() == self.params.n,
                self.sec_sampling_method is UniformBinary ==> forall|t: int|
                    0 <= t < i ==> binary_poly(#[trigger] polys_of(s@)[t], self.params.n as nat),
            decreases self.params.k - i,
        {
            let v = fhe_sample(rng, self.sec_sampling_method, self.params.n);
            let ghost vv = v@;
            let ghost old_polys = polys_of(s@);
            s.push(v);
            proof {
                if self.sec_sampling_method is UniformBinary {
                    assert forall|j: int| 0 <= j < self.params.n implies #[trigger] ints_of(
                        vv,
                    )[j] == 0 || ints_of(vv)[j] == 1 by {
                        assert(0 <= vv[j] as int && (vv[j] as int) < 2);
                    }
                    assert(binary_poly(ints_of(vv), self.params.n as nat));
                    assert forall|t: int| 0 <= t < i + 1 implies binary_poly(
                        #[trigger] polys_of(s@)[t],
                        self.params.n as nat,
                    ) by {
                        if t == i {
                            assert(polys_of(s@)[t] == ints_of(vv));
                        } else {
                            assert(polys_of(s@)[t] == old_polys[t]);
                        }
                    }
                }
            }
            i += 1;
        }
        GLWESecretKey { s }
    }

    /// Generates a key pair: a secret key from the secret distribution,
    /// `k` uniform mask polynomials canonicalised into `[0, q)`, and the
    /// body `b = sum a_i * s_i + e (mod q)` with the shaped error built
    /// from the raw Gaussian samples in `key_noise`.
    #[verifier::loop_isolation(false)]
    pub fn gen_keypair(&self, rng: &mut rand::rngs::StdRng, key_noise: &Vec<i64>) -> (r: (
        GLWESecretKey,
        GLWEPublicKey,
    ))
        requires
            self.params.valid(),
            self.params.delta_spec() >= 2,
            self.params.n < usize::MAX / 2,
            key_noise@.len() == self.params.n,
            self.sec_sampling_method is UniformBinary,
        ensures
            r.0.wf(self.params.k as nat, self.params.n as nat),
            r.1.wf(self.params.k as nat, self.params.n as nat, self.params.q as int),
            ints_of(r.1.b@) == poly_add_q(
                dot_q(
                    polys_of(r.1.a@),
                    polys_of(r.0.s@),
                    self.params.q as int,
                    self.params.n as nat,
                    self.params.k as nat,
                ),
                error_clamp(ints_of(key_noise@), self.params.delta_spec() / 2),
                self.params.q as int,
            ),
    {
        let n = self.params.n;
        let k = self.params.k;
        let q = self.params.q;
        let ghost qi = q as int;
        let sec_key = self.gen_secret_key(rng);
        let half = q / 2;
        let mut a_vec: Vec<Vec<i64>> = Vec::new();
        let mut as_sum: Vec<i64> = zero_coeffs(n);
        let mut i: usize = 0;
        while i < k
            invariant
                i <= k,
                a_vec@.len() == i,
                as_sum@.len() == n,
                forall|t: int| 0 <= t < i ==> poly_wf(
                    #[trigger] polys_of(a_vec@)[t],
                    n as nat,
                    qi,
                ),
                ints_of(as_sum@) == dot_q(
                    polys_of(a_vec@),
                    polys_of(sec_key.s@),
                    qi,
                    n as nat,
                    i as nat,
                ),
            decreases k - i,
        {
            let a_raw = fhe_sample(rng, FHESamplingMethod::Uniform(0 - half, half), n);
            let mut a_can: Vec<i64> = Vec::new();
            let mut j: usize = 0;
            while j < n
                invariant
                    j <= n,
                    a_raw@.len() == n,
                    a_can@.len() == j,
                    forall|t: int| 0 <= t < j ==> #[trigger] a_can@[t] as int == (
                    a_raw@[t] as int) % qi,
                    forall|t: int| 0 <= t < j ==> 0 <= #[trigger] a_can@[t] < q,
                decreases n - j,
            {
                a_can.push(mod_q_i64(a_raw[j] as i128, q));
                j += 1;
            }
            let prod = poly_mul(&self.params, &a_can, &self.s_at(&sec_key, i));
            poly_add(&self.params, &mut as_sum, &prod);
            let ghost old_a = polys_of(a_vec@);
            let ghost can_view = a_can@;
            a_vec.push(a_can);
            proof {
                let new_a = polys_of(a_vec@);
                assert(new_a[i as int] == ints_of(can_view));
                assert(poly_wf(ints_of(can_view), n as nat, qi)) by {
                    assert forall|t: int| 0 <= t < n implies 0 <= #[trigger] ints_of(can_view)[t]
                        < qi by {
                        assert(0 <= can_view[t] < q);
                    }
                }
                assert forall|t: int| 0 <= t < i + 1 implies poly_wf(
                    #[trigger] new_a[t],
                    n as nat,
                    qi,
                ) by {
                    if t < i {
                        assert(new_a[t] == old_a[t]);
                    }
                }
                let s_polys = polys_of(sec_key.s@);
                assert forall|t: int| 0 <= t < i implies #[trigger] old_a[t] == new_a[t] by {}
                lemma_dot_q_prefix(old_a, new_a, s_polys, qi, n as nat, i as nat);
                lemma_pad_to_id(new_a[i as int], n as nat);
                lemma_pad_to_id(s_polys[i as int], n as nat);
                lemma_pad_to_id(dot_q(new_a, s_polys, qi, n as nat, i as nat), n as nat);
                lemma_pad_to_id(
                    poly_mul_q(new_a[i as int], s_polys[i as int], qi),
                    n as nat,
                );
            }
            i += 1;
        }
        let e = self.gen_error(key_noise);
        poly_add(&self.params, &mut as_sum, &e);
        proof {
            lemma_pad_to_id(
                dot_q(polys_of(a_vec@), polys_of(sec_key.s@), qi, n as nat, k as nat),
                n as nat,
            );
            lemma_pad_to_id(error_clamp(ints_of(key_noise@), self.params.delta_spec() / 2), n as nat);
        }
        (sec_key, GLWEPublicKey { a: a_vec, b: as_sum })
    }

    /// Borrow of the `i`-th secret polynomial.
    fn s_at<'a>(&self, sk: &'a GLWESecretKey, i: usize) -> (r: &'a Vec<i64>)
        requires
            i < sk.s@.len(),
        ensures
            r == sk.s@[i as int],
    {
        &sk.s[i]
    }

    /// Borrow of the `i`-th polynomial of a vector of polynomials.
    fn poly_at<'a>(&self, v: &'a Vec<Vec<i64>>, i: usize) -> (r: &'a Vec<i64>)
        requires
            i < v@.len(),
        ensures
            r == v@[i as int],
    {
        &v[i]
    }

    /// Encryption with every random input handed in: the encoded message
    /// is scaled by `delta` and masked with `pk.b * u` and a shaped error;
    /// each mask slot is `pk.a_i * u` plus its own shaped error.
    #[verifier::loop_isolation(false)]
    pub fn encrypt_with(
        &self,
        pub_key: &GLWEPublicKey,
        data: &[u8],
        u: &Vec<i64>,
        noise: &Vec<Vec<i64>>,
    ) -> (ct: GLWECiphertext)
        requires
            self.params.valid(),
            self.params.delta_spec() >= 2,
            self.params.n < usize::MAX / 2,
            pub_key.a@.len() == self.params.k,
            forall|i: int| 0 <= i < self.params.k ==> #[trigger] pub_key.a@[i]@.len()
                == self.params.n,
            pub_key.b@.len() == self.params.n,
            u@.len() == self.params.n,
            noise@.len() == self.params.k + 1,
            forall|i: int| 0 <= i < self.params.k + 1 ==> #[trigger] noise@[i]@.len()
                == self.params.n,
            data@.len() * 8 <= usize::MAX,
        ensures
            ct.wf(self.params.k as nat, self.params.n as nat, self.params.q as int),
            ints_of(ct.b@) == spec_encrypt_body(
                self.params,
                ints_of(pub_key.b@),
                ints_of(u@),
                spec_message(data@, self.params),
                ints_of(noise@[0]@),
            ),
            forall|i: int| 0 <= i < self.params.k ==> #[trigger] polys_of(ct.d@)[i]
                == spec_encrypt_mask(
                self.params,
                polys_of(pub_key.a@)[i],
                ints_of(u@),
                ints_of(noise@[i + 1]@),
            ),
    {
        let n = self.params.n;
        let k = self.params.k;
        let q = self.params.q;
        let ghost qi = q as int;
        let delta = self.delta_exec();
        let mut pt = encode_base_p(data, self.params.p);
        crate::utils::ensure_len(&mut pt, n);
        let ghost msg = spec_message(data@, self.params);
        proof {
            assert(ints_of(pt@) == msg);
        }
        let mut delta_m: Vec<i64> = Vec::new();
        let mut j: usize = 0;
        while j < n
            invariant
                j <= n,
                pt@.len() == n,
                delta_m@.len() == j,
                forall|t: int| 0 <= t < j ==> #[trigger] delta_m@[t] as int == (delta as int
                    * msg[t]) % qi,
            decreases n - j,
        {
            let ptj: i64 = pt[j];
            proof {
                assert(-0x4000_0000_0000_0000_0000_0000_0000_0000 <= (delta as int) * (ptj as int)
                    <= 0x4000_0000_0000_0000_0000_0000_0000_0000) by (nonlinear_arith);
            }
            delta_m.push(mod_q_i64((delta as i128) * (ptj as i128), q));
            j += 1;
        }
        proof {
            assert(ints_of(delta_m@) =~= poly_scale_q(msg, delta as int, qi));
        }
        let e1 = self.gen_error(self.poly_at(noise, 0));
        let mut b = poly_mul(&self.params, &pub_key.b, u);
        proof {
            lemma_pad_to_id(ints_of(pub_key.b@), n as nat);
            lemma_pad_to_id(ints_of(u@), n as nat);
            lemma_pad_to_id(ints_of(b@), n as nat);
            lemma_pad_to_id(ints_of(delta_m@), n as nat);
        }
        poly_add(&self.params, &mut b, &delta_m);
        proof {
            lemma_pad_to_id(ints_of(b@), n as nat);
            lemma_pad_to_id(ints_of(e1@), n as nat);
        }
        poly_add(&self.params, &mut b, &e1);
        let mut d: Vec<Vec<i64>> = Vec::new();
        let mut i: usize = 0;
        while i < k
            invariant
                i <= k,
                d@.len() == i,
                forall|t: int| 0 <= t < i ==> #[trigger] polys_of(d@)[t] == spec_encrypt_mask(
                    self.params,
                    polys_of(pub_key.a@)[t],
                    ints_of(u@),
                    ints_of(noise@[t + 1]@),
                ),
                forall|t: int| 0 <= t < i ==> poly_wf(#[trigger] polys_of(d@)[t], n as nat, qi),
            decreases k - i,
        {
            let e2 = self.gen_error(self.poly_at(noise, i + 1));
            let mut pka_dot_u = poly_mul(&self.params, self.poly_at(&pub_key.a, i), u);
            proof {
                lemma_pad_to_id(polys_of(pub_key.a@)[i as int], n as nat);
                lemma_pad_to_id(ints_of(u@), n as nat);
                lemma_pad_to_id(ints_of(pka_dot_u@), n as nat);
                lemma_pad_to_id(ints_of(e2@), n as nat);
            }
            poly_add(&self.params, &mut pka_dot_u, &e2);
            let ghost old_d = polys_of(d@);
            let ghost row = ints_of(pka_dot_u@);
            d.push(pka_dot_u);
            proof {
                assert(polys_of(d@)[i as int] == row);
                assert forall|t: int| 0 <= t < i + 1 implies #[trigger] polys_of(d@)[t]
                    == spec_encrypt_mask(
                    self.params,
                    polys_of(pub_key.a@)[t],
                    ints_of(u@),
                    ints_of(noise@[t + 1]@),
                ) by {
                    if t < i {
                        assert(polys_of(d@)[t] == old_d[t]);
                    }
                }
                assert forall|t: int| 0 <= t < i + 1 implies poly_wf(
                    #[trigger] polys_of(d@)[t],
                    n as nat,
                    qi,
                ) by {
                    if t < i {
                        assert(polys_of(d@)[t] == old_d[t]);
                    }
                }
            }
            i += 1;
        }
        GLWECiphertext { b, d }
    }

    /// Encrypts a byte string under the public key: encodes it, draws the
    /// binary masking polynomial `u`, and shapes the raw error samples in
    /// `noise` (one vector for the body, one per mask slot).
    pub fn encrypt(
        &self,
        rng: &mut rand::rngs::StdRng,
        pub_key: &GLWEPublicKey,
        data: Vec<u8>,
        noise: &Vec<Vec<i64>>,
    ) -> (ct: GLWECiphertext)
        requires
            self.params.valid(),
            self.params.delta_spec() >= 2,
            self.params.n < usize::MAX / 2,
            pub_key.a@.len() == self.params.k,
            forall|i: int| 0 <= i < self.params.k ==> #[trigger] pub_key.a@[i]@.len()
                == self.params.n,
            pub_key.b@.len() == self.params.n,
            noise@.len() == self.params.k + 1,
            forall|i: int| 0 <= i < self.params.k + 1 ==> #[trigger] noise@[i]@.len()
                == self.params.n,
            data@.len() * 8 <= usize::MAX,
        ensures
            ct.wf(self.params.k as nat, self.params.n as nat, self.params.q as int),
            exists|u: Seq<int>|
                #[trigger] binary_poly(u, self.params.n as nat) && ints_of(ct.b@)
                    == spec_encrypt_body(
                    self.params,
                    ints_of(pub_key.b@),
                    u,
                    spec_message(data@, self.params),
                    ints_of(noise@[0]@),
                ) && (forall|i: int|
                    0 <= i < self.params.k ==> #[trigger] polys_of(ct.d@)[i] == spec_encrypt_mask(
                        self.params,
                        polys_of(pub_key.a@)[i],
                        u,
                        ints_of(noise@[i + 1]@),
                    )),
    {
        let u = fhe_sample(rng, FHESamplingMethod::UniformBinary, self.params.n);
        let ct = self.encrypt_with(pub_key, data.as_slice(), &u, noise);
        proof {
            let uu = ints_of(u@);
            assert forall|j: int| 0 <= j < self.params.n implies #[trigger] uu[j] == 0 || uu[j]
                == 1 by {
                assert(0 <= u@[j] as int && (u@[j] as int) < 2);
            }
            assert(binary_poly(uu, self.params.n as nat));
        }
        ct
    }

    /// Decrypts a ciphertext: the phase `b - sum d_i * s_i (mod q)` is
    /// lifted to the centred range and rounded by `delta`, yielding the
    /// plaintext symbols.
    #[verifier::loop_isolation(false)]
    pub fn decrypt(&self, secret_key: &GLWESecretKey, ciphertext: GLWECiphertext) -> (out: Vec<
        i64,
    >)
        requires
            self.params.valid(),
            self.params.n < usize::MAX / 2,
            secret_key.dims(self.params.k as nat, self.params.n as nat),
            ciphertext.dims(self.params.k as nat, self.params.n as nat),
        ensures
            ints_of(out@) == spec_decrypt(
                self.params,
                polys_of(ciphertext.d@),
                ints_of(ciphertext.b@),
                polys_of(secret_key.s@),
            ),
            out@.len() == self.params.n,
    {
        let n = self.params.n;
        let k = self.params.k;
        let q = self.params.q;
        let ghost qi = q as int;
        let delta = self.delta_exec();
        let mut ds_sum = zero_coeffs(n);
        let mut i: usize = 0;
        while i < k
            invariant
                i <= k,
                ds_sum@.len() == n,
                ints_of(ds_sum@) == dot_q(
                    polys_of(ciphertext.d@),
                    polys_of(secret_key.s@),
                    qi,
                    n as nat,
                    i as nat,
                ),
            decreases k - i,
        {
            let prod = poly_mul(
                &self.params,
                self.poly_at(&ciphertext.d, i),
                self.s_at(secret_key, i),
            );
            proof {
                lemma_pad_to_id(polys_of(ciphertext.d@)[i as int], n as nat);
                lemma_pad_to_id(polys_of(secret_key.s@)[i as int], n as nat);
                lemma_pad_to_id(ints_of(ds_sum@), n as nat);
                lemma_pad_to_id(ints_of(prod@), n as nat);
            }
            poly_add(&self.params, &mut ds_sum, &prod);
            i += 1;
        }
        let mut decoded: Vec<i64> = Vec::new();
        let mut j: usize = 0;
        while j < n
            invariant
                j <= n,
                ds_sum@.len() == n,
                ints_of(ds_sum@) == dot_q(
                    polys_of(ciphertext.d@),
                    polys_of(secret_key.s@),
                    qi,
                    n as nat,
                    k as nat,
                ),
                decoded@.len() == j,
                forall|t: int| 0 <= t < j ==> #[trigger] decoded@[t] as int == round_div(
                    centered_rep(
                        spec_phase(
                            self.params,
                            polys_of(ciphertext.d@),
                            ints_of(ciphertext.b@),
                            polys_of(secret_key.s@),
                        )[t],
                        qi,
                    ),
                    self.params.delta_spec(),
                ),
            decreases n - j,
        {
            let bi: i128 = ciphertext.b[j] as i128;
            let sterm: i128 = ds_sum[j] as i128;
            let scaled: i64 = mod_q_i64(bi - sterm, q);
            let centered: i64 = center_to_signed(scaled, q);
            decoded.push(div_round_signed(centered, delta));
            j += 1;
        }
        proof {
            assert(ints_of(decoded@) =~= spec_decrypt(
                self.params,
                polys_of(ciphertext.d@),
                ints_of(ciphertext.b@),
                polys_of(secret_key.s@),
            ));
        }
        decoded
    }

    /// Homomorphic addition: coefficient-wise sum modulo `q` of the bodies
    /// and of each pair of mask polynomials.
    #[verifier::loop_isolation(false)]
    pub fn add_ciphertexts(&self, c1: &GLWECiphertext, c2: &GLWECiphertext) -> (r: GLWECiphertext)
        requires
            self.params.q >= 1,
            c1.dims(self.params.k as nat, self.params.n as nat),
            c2.dims(self.params.k as nat, self.params.n as nat),
        ensures
            r.wf(self.params.k as nat, self.params.n as nat, self.params.q as int),
            ints_of(r.b@) == poly_add_q(ints_of(c1.b@), ints_of(c2.b@), self.params.q as int),
            forall|i: int| 0 <= i < self.params.k ==> #[trigger] polys_of(r.d@)[i] == poly_add_q(
                polys_of(c1.d@)[i],
                polys_of(c2.d@)[i],
                self.params.q as int,
            ),
    {
        let k = self.params.k;
        let n = self.params.n;
        let q = self.params.q;
        let ghost qi = q as int;
        let b = add_mod_vec(q, &c1.b, &c2.b);
        let mut d: Vec<Vec<i64>> = Vec::new();
        let mut i: usize = 0;
        while i < k
            invariant
                i <= k,
                d@.len() == i,
                forall|t: int| 0 <= t < i ==> #[trigger] polys_of(d@)[t] == poly_add_q(
                    polys_of(c1.d@)[t],
                    polys_of(c2.d@)[t],
                    qi,
                ),
                forall|t: int| 0 <= t < i ==> poly_wf(#[trigger] polys_of(d@)[t], n as nat, qi),
            decreases k - i,
        {
            let di = add_mod_vec(q, self.poly_at(&c1.d, i), self.poly_at(&c2.d, i));
            let ghost old_d = polys_of(d@);
            let ghost row = ints_of(di@);
            d.push(di);
            proof {
                assert(polys_of(d@)[i as int] == row);
                assert forall|t: int| 0 <= t < i + 1 implies #[trigger] polys_of(d@)[t]
                    == poly_add_q(polys_of(c1.d@)[t], polys_of(c2.d@)[t], qi) by {
                    if t < i {
                        assert(polys_of(d@)[t] == old_d[t]);
                    }
                }
                assert forall|t: int| 0 <= t < i + 1 implies poly_wf(
                    #[trigger] polys_of(d@)[t],
                    n as nat,
                    qi,
                ) by {
                    if t < i {
                        assert(polys_of(d@)[t] == old_d[t]);
                    }
                }
            }
            i += 1;
        }
        GLWECiphertext { b, d }
    }

    /// Homomorphic scalar multiplication, in place: every coefficient of
    /// every polynomial of the ciphertext is multiplied by the cleartext
    /// integer `c` and reduced modulo `q`.
    #[verifier::loop_isolation(false)]
    pub fn scale_ciphertext(&self, ct: &mut GLWECiphertext, c: i64)
        requires
            self.params.q >= 1,
        ensures
            final(ct).d@.len() == old(ct).d@.len(),
            ints_of(final(ct).b@) == poly_scale_q(
                ints_of(old(ct).b@),
                c as int,
                self.params.q as int,
            ),
            forall|i: int| 0 <= i < old(ct).d@.len() ==> #[trigger] polys_of(final(ct).d@)[i]
                == poly_scale_q(polys_of(old(ct).d@)[i], c as int, self.params.q as int),
    {
        let q = self.params.q;
        let ghost qi = q as int;
        let kd = ct.d.len();
        let mut d: Vec<Vec<i64>> = Vec::new();
        let mut i: usize = 0;
        while i < kd
            invariant
                i <= kd,
                kd == old(ct).d@.len(),
                ct.d@ == old(ct).d@,
                d@.len() == i,
                forall|t: int| 0 <= t < i ==> #[trigger] polys_of(d@)[t] == poly_scale_q(
                    polys_of(old(ct).d@)[t],
                    c as int,
                    qi,
                ),
            decreases kd - i,
        {
            let row = scale_mod_vec(q, self.poly_at(&ct.d, i), c);
            let ghost old_d = polys_of(d@);
            let ghost row_view = ints_of(row@);
            d.push(row);
            proof {
                assert(polys_of(d@)[i as int] == row_view);
                assert forall|t: int| 0 <= t < i + 1 implies #[trigger] polys_of(d@)[t]
                    == poly_scale_q(polys_of(old(ct).d@)[t], c as int, qi) by {
                    if t < i {
                        assert(polys_of(d@)[t] == old_d[t]);
                    }
                }
            }
            i += 1;
        }
        let b = scale_mod_vec(q, &ct.b, c);
        ct.d = d;
        ct.b = b;
    }

    /// Homomorphic multiplication by a plaintext polynomial already lifted
    /// to `R_q`: the body and every mask slot are multiplied by `pt` in
    /// the negacyclic ring.
    #[verifier::loop_isolation(false)]
    pub fn multyply_by_plaintext(&self, ct: &GLWECiphertext, pt: &Vec<i64>) -> (r: GLWECiphertext)
        requires
            self.params.q >= 1,
            self.params.n < usize::MAX / 2,
        ensures
            r.d@.len() == ct.d@.len(),
            r.wf(ct.d@.len() as nat, self.params.n as nat, self.params.q as int),
            ints_of(r.b@) == poly_mul_q(
                pad_to(ints_of(ct.b@), self.params.n as nat),
                pad_to(ints_of(pt@), self.params.n as nat),
                self.params.q as int,
            ),
            forall|i: int| 0 <= i < ct.d@.len() ==> #[trigger] polys_of(r.d@)[i] == poly_mul_q(
                pad_to(polys_of(ct.d@)[i], self.params.n as nat),
                pad_to(ints_of(pt@), self.params.n as nat),
                self.params.q as int,
            ),
    {
        let n = self.params.n;
        let q = self.params.q;
        let ghost qi = q as int;
        let b = poly_mul(&self.params, &ct.b, pt);
        let kd = ct.d.len();
        let mut d: Vec<Vec<i64>> = Vec::new();
        let mut i: usize = 0;
        while i < kd
            invariant
                i <= kd,
                kd == ct.d@.len(),
                d@.len() == i,
                forall|t: int| 0 <= t < i ==> #[trigger] polys_of(d@)[t] == poly_mul_q(
                    pad_to(polys_of(ct.d@)[t], n as nat),
                    pad_to(ints_of(pt@), n as nat),
                    qi,
                ),
                forall|t: int| 0 <= t < i ==> poly_wf(#[trigger] polys_of(d@)[t], n as nat, qi),
            decreases kd - i,
        {
            let row = poly_mul(&self.params, self.poly_at(&ct.d, i), pt);
            let ghost old_d = polys_of(d@);
            let ghost row_view = ints_of(row@);
            d.push(row);
            proof {
                assert(polys_of(d@)[i as int] == row_view);
                assert forall|t: int| 0 <= t < i + 1 implies #[trigger] polys_of(d@)[t]
                    == poly_mul_q(
                    pad_to(polys_of(ct.d@)[t], n as nat),
                    pad_to(ints_of(pt@), n as nat),
                    qi,
                ) by {
                    if t < i {
                        assert(polys_of(d@)[t] == old_d[t]);
                    }
                }
                assert forall|t: int| 0 <= t < i + 1 implies poly_wf(
                    #[trigger] polys_of(d@)[t],
                    n as nat,
                    qi,
                ) by {
                    if t < i {
                        assert(polys_of(d@)[t] == old_d[t]);
                    }
                }
            }
            i += 1;
        }
        GLWECiphertext { b, d }
    }

    /// Lifts a plaintext polynomial into `R_q`: padded or truncated to
    /// length `n`, every coefficient canonicalised into `[0, q)`.
    #[verifier::loop_isolation(false)]
    pub fn lift_plain_poly_to_q(&self, m_poly_p: &Vec<i64>) -> (r: Vec<i64>)
        requires
            self.params.q >= 1,
        ensures
            ints_of(r@) == lift_q(ints_of(m_poly_p@), self.params.q as int, self.params.n as nat),
            r@.len() == self.params.n,
    {
        let n = self.params.n;
        let q = self.params.q;
        let mut r: Vec<i64> = Vec::new();
        let mut i: usize = 0;
        while i < n
            invariant
                i <= n,
                r@.len() == i,
                forall|t: int| 0 <= t < i ==> #[trigger] r@[t] as int == pad_to(
                    ints_of(m_poly_p@),
                    n as nat,
                )[t] % (q as int),
            decreases n - i,
        {
            let v: i64 = if i < m_poly_p.len() {
                m_poly_p[i]
            } else {
                0
            };
            r.push(mod_q_i64(v as i128, q));
            i += 1;
        }
        proof {
            assert(ints_of(r@) =~= lift_q(
                ints_of(m_poly_p@),
                self.params.q as int,
                self.params.n as nat,
            ));
        }
        r
    }

    /// Splits one coefficient into base-`base` digits, least significant
    /// first, so that the digits recombine to the coefficient exactly.
    /// Balanced digits lie in `[-base/2, base/2]` with the coefficient's
    /// sign carried by the digits; plain digits lie in `(-base, base)`
    /// with the sign factored into every digit.
    #[verifier::loop_isolation(false)]
    fn decompose_coeff(&self, c: i64, base: i64, balanced: bool) -> (digs: Vec<i64>)
        requires
            base >= 2,
        ensures
            chunk_value(ints_of(digs@), base as int, 0) == c as int,
            forall|i: int| 0 <= i < digs@.len() ==> -base < #[trigger] digs@[i] < base,
            balanced ==> forall|i: int| 0 <= i < digs@.len() ==> -(base / 2)
                <= #[trigger] digs@[i] <= base / 2,
    {
        let neg = c < 0;
        let ghost sgn: int = if neg {
            -1
        } else {
            1
        };
        let bi: i128 = base as i128;
        let mut cc: i128 = if c >= 0 {
            c as i128
        } else {
            -(c as i128)
        };
        let mut digs: Vec<i64> = Vec::new();
        proof {
            reveal(pow);
        }
        while cc > 0
            invariant
                0 <= cc <= 0x8000_0000_0000_0000,
                c as int == chunk_value(ints_of(digs@), base as int, 0) + sgn * ((cc as int) * pow(
                    base as int,
                    digs@.len(),
                )),
                forall|i: int| 0 <= i < digs@.len() ==> -base < #[trigger] digs@[i] < base,
                balanced ==> forall|i: int| 0 <= i < digs@.len() ==> -(base / 2)
                    <= #[trigger] digs@[i] <= base / 2,
            decreases cc,
        {
            let r0: i64 = (cc % bi) as i64;
            let adjust: bool = balanced && r0 > base / 2;
            let r: i64 = if adjust {
                r0 - base
            } else {
                r0
            };
            let next: i128 = if adjust {
                cc / bi + 1
            } else {
                cc / bi
            };
            let push_val: i64 = if neg {
                -r
            } else {
                r
            };
            let ghost old_digs = ints_of(digs@);
            let ghost ll = digs@.len() as nat;
            digs.push(push_val);
            proof {
                reveal(pow);
                lemma_fundamental_div_mod(cc as int, bi as int);
                assert(cc as int == (bi as int) * (cc as int / bi as int) + (cc as int % bi as int));
                // With or without the balanced adjustment, one division
                // step rewrites the remaining value exactly.
                assert(cc as int == (base as int) * (next as int) + r as int) by (nonlinear_arith)
                    requires
                        cc as int == (bi as int) * (cc as int / bi as int) + r0 as int,
                        bi as int == base as int,
                        adjust ==> (next as int == cc as int / bi as int + 1 && r as int
                            == r0 as int - base as int),
                        !adjust ==> (next as int == cc as int / bi as int && r == r0),
                ;
                lemma_chunk_value_push(old_digs, push_val as int, base as int, 0);
                assert(ints_of(digs@) =~= old_digs.push(push_val as int));
                assert(push_val as int == sgn * (r as int)) by (nonlinear_arith)
                    requires
                        sgn == if neg { -1int } else { 1int },
                        push_val as int == if neg { -(r as int) } else { r as int },
                ;
                assert(pow(base as int, ll + 1) == (base as int) * pow(base as int, ll));
                // Rebalance the telescoping identity around the new digit.
                assert((cc as int) * pow(base as int, ll) == (next as int) * pow(base as int, ll + 1)
                    + (r as int) * pow(base as int, ll)) by (nonlinear_arith)
                    requires
                        cc as int == (base as int) * (next as int) + r as int,
                        pow(base as int, ll + 1) == (base as int) * pow(base as int, ll),
                ;
                assert(c as int == (chunk_value(old_digs, base as int, 0) + sgn * (r as int) * pow(
                    base as int,
                    ll,
                )) + sgn * ((next as int) * pow(base as int, ll + 1))) by (nonlinear_arith)
                    requires
                        c as int == chunk_value(old_digs, base as int, 0) + sgn * ((cc as int)
                            * pow(base as int, ll)),
                        (cc as int) * pow(base as int, ll) == (next as int) * pow(
                            base as int,
                            ll + 1,
                        ) + (r as int) * pow(base as int, ll),
                ;
                // The loop measure shrinks: the quotient drops below `cc`.
                lemma_div_decreases(cc as int, bi as int);
                if adjust {
                    assert(base >= 3);
                    assert(r0 >= 2);
                    assert(cc >= 2) by {
                        if cc < bi {
                            lemma_small_mod(cc as nat, bi as nat);
                        }
                    }
                    if cc == 2 {
                        vstd::arithmetic::div_mod::lemma_basic_div(cc as int, bi as int);
                        assert(next < cc);
                    } else {
                        lemma_div_is_ordered_by_denominator(cc as int, 3, bi as int);
                        lemma_div_multiples_vanish(cc as int - 2, 3);
                        vstd::arithmetic::div_mod::lemma_div_is_ordered(
                            cc as int,
                            3 * (cc as int - 2),
                            3,
                        );
                        assert(next < cc);
                    }
                }
            }
            cc = next;
        }
        digs
    }

    /// Homomorphic multiplication by a plaintext polynomial through digit
    /// decomposition: each coefficient of `m_poly` is split into base-`base`
    /// digits (balanced or plain), every digit layer is scaled by the
    /// matching power of `base` modulo `q` and multiplied into the
    /// ciphertext, and the layers are summed. The result coincides,
    /// coefficient for coefficient, with the naive product by `m_poly`
    /// lifted to `R_q`.
    #[verifier::loop_isolation(false)]
    pub fn multiply_decomposed(
        &self,
        ct: &GLWECiphertext,
        m_poly: &Vec<i64>,
        base: i64,
        balanced: bool,
    ) -> (r: GLWECiphertext)
        requires
            self.params.valid(),
            self.params.n < usize::MAX / 2,
            base >= 2,
            ct.dims(self.params.k as nat, self.params.n as nat),
        ensures
            r.wf(self.params.k as nat, self.params.n as nat, self.params.q as int),
            ints_of(r.b@) == poly_mul_q(
                pad_to(ints_of(ct.b@), self.params.n as nat),
                lift_q(ints_of(m_poly@), self.params.q as int, self.params.n as nat),
                self.params.q as int,
            ),
            forall|i: int| 0 <= i < self.params.k ==> #[trigger] polys_of(r.d@)[i] == poly_mul_q(
                pad_to(polys_of(ct.d@)[i], self.params.n as nat),
                lift_q(ints_of(m_poly@), self.params.q as int, self.params.n as nat),
                self.params.q as int,
            ),
    {
        let n = self.params.n;
        let k = self.params.k;
        let q = self.params.q;
        let ghost qi = q as int;
        let ghost bi = base as int;
        let ghost target = pad_to(ints_of(m_poly@), n as nat);

        // Decompose every coefficient once; layers index into this table.
        let mut table: Vec<Vec<i64>> = Vec::new();
        let mut j: usize = 0;
        while j < n
            invariant
                j <= n,
                table@.len() == j,
                forall|t: int| 0 <= t < j ==> chunk_value(#[trigger] polys_of(table@)[t], bi, 0)
                    == target[t],
            decreases n - j,
        {
            let row: Vec<i64> = if j < m_poly.len() {
                self.decompose_coeff(m_poly[j], base, balanced)
            } else {
                Vec::new()
            };
            let ghost old_table = polys_of(table@);
            let ghost row_view = ints_of(row@);
            table.push(row);
            proof {
                assert(polys_of(table@)[j as int] == row_view);
                assert forall|t: int| 0 <= t < j + 1 implies chunk_value(
                    #[trigger] polys_of(table@)[t],
                    bi,
                    0,
                ) == target[t] by {
                    if t < j {
                        assert(polys_of(table@)[t] == old_table[t]);
                    }
                }
            }
            j += 1;
        }

        // The number of layers: the longest decomposition, and at least one.
        let mut max_digits: usize = 1;
        let mut j2: usize = 0;
        while j2 < n
            invariant
                j2 <= n,
                max_digits >= 1,
                table@.len() == n,
                forall|t: int| 0 <= t < j2 ==> #[trigger] table@[t]@.len() <= max_digits,
            decreases n - j2,
        {
            let row_len = self.poly_at(&table, j2).len();
            if row_len > max_digits {
                max_digits = row_len;
            }
            j2 += 1;
        }

        let mut acc = GLWECiphertext::zero(&self.params);
        let mut pw: i64 = 1;
        proof {
            reveal(pow);
            lemma_small_mod(1nat, q as nat);
            assert forall|t: int| 0 <= t < k implies #[trigger] polys_of(acc.d@)[t] == poly_mul_q(
                pad_to(polys_of(ct.d@)[t], n as nat),
                layer_sum(polys_of(table@), bi, 0, n as nat),
                qi,
            ) by {
                assert(layer_sum(polys_of(table@), bi, 0, n as nat) =~= zero_poly(n as nat));
                lemma_poly_mul_q_zero(pad_to(polys_of(ct.d@)[t], n as nat), qi);
            }
            assert(layer_sum(polys_of(table@), bi, 0, n as nat) =~= zero_poly(n as nat));
            lemma_poly_mul_q_zero(pad_to(ints_of(ct.b@), n as nat), qi);
        }
        let mut i: usize = 0;
        while i < max_digits
            invariant
                i <= max_digits,
                pw as int == pow(bi, i as nat) % qi,
                0 <= pw < q,
                table@.len() == n,
                acc.wf(k as nat, n as nat, qi),
                ints_of(acc.b@) == poly_mul_q(
                    pad_to(ints_of(ct.b@), n as nat),
                    layer_sum(polys_of(table@), bi, i as nat, n as nat),
                    qi,
                ),
                forall|t: int| 0 <= t < k ==> #[trigger] polys_of(acc.d@)[t] == poly_mul_q(
                    pad_to(polys_of(ct.d@)[t], n as nat),
                    layer_sum(polys_of(table@), bi, i as nat, n as nat),
                    qi,
                ),
            decreases max_digits - i,
        {
            // The digit polynomial of this layer, scaled by `base^i mod q`.
            let mut di_poly: Vec<i64> = Vec::new();
            let mut j3: usize = 0;
            while j3 < n
                invariant
                    j3 <= n,
                    table@.len() == n,
                    0 <= pw < q,
                    di_poly@.len() == j3,
                    forall|t: int| 0 <= t < j3 ==> #[trigger] di_poly@[t] as int == (digit_at(
                        polys_of(table@)[t],
                        i as int,
                    ) * pw as int) % qi,
                decreases n - j3,
            {
                let row = self.poly_at(&table, j3);
                let digit: i64 = if i < row.len() {
                    row[i]
                } else {
                    0
                };
                proof {
                    assert(digit as int == digit_at(polys_of(table@)[j3 as int], i as int));
                    assert(-0x4000_0000_0000_0000_0000_0000_0000_0000 <= (digit as int) * (
                    pw as int) <= 0x4000_0000_0000_0000_0000_0000_0000_0000) by (nonlinear_arith);
                }
                di_poly.push(mod_q_i64((digit as i128) * (pw as i128), q));
                j3 += 1;
            }
            let part = self.multyply_by_plaintext(ct, &di_poly);
            proof {
                assert forall|t: int| 0 <= t < k implies #[trigger] part.d@[t]@.len() == n by {
                    assert(polys_of(part.d@)[t].len() == n);
                }
                assert(ints_of(part.b@).len() == n);
                assert(part.dims(k as nat, n as nat));
                assert forall|t: int| 0 <= t < k implies #[trigger] acc.d@[t]@.len() == n by {
                    assert(polys_of(acc.d@)[t].len() == n);
                }
                assert(ints_of(acc.b@).len() == n);
                assert(acc.dims(k as nat, n as nat));
            }
            let acc2 = self.add_ciphertexts(&acc, &part);
            proof {
                let tbl = polys_of(table@);
                let di = ints_of(di_poly@);
                lemma_pad_to_id(di, n as nat);
                lemma_layer_step(
                    pad_to(ints_of(ct.b@), n as nat),
                    tbl,
                    di,
                    bi,
                    i as nat,
                    qi,
                    n as nat,
                    pw as int,
                );
                assert forall|t: int| 0 <= t < k implies #[trigger] polys_of(acc2.d@)[t]
                    == poly_mul_q(
                    pad_to(polys_of(ct.d@)[t], n as nat),
                    layer_sum(tbl, bi, (i + 1) as nat, n as nat),
                    qi,
                ) by {
                    lemma_layer_step(
                        pad_to(polys_of(ct.d@)[t], n as nat),
                        tbl,
                        di,
                        bi,
                        i as nat,
                        qi,
                        n as nat,
                        pw as int,
                    );
                }
                // Step the power of the base, modulo q.
                lemma_mul_mod_noop_right(bi, pow(bi, i as nat), qi);
                assert(pow(bi, (i + 1) as nat) == bi * pow(bi, i as nat)) by {
                    reveal(pow);
                }
                assert(-0x4000_0000_0000_0000_0000_0000_0000_0000 <= (base as int) * (pw as int)
                    <= 0x4000_0000_0000_0000_0000_0000_0000_0000) by (nonlinear_arith);
            }
            acc = acc2;
            pw = mod_q_i64((base as i128) * (pw as i128), q);
            i += 1;
        }
        proof {
            let tbl = polys_of(table@);
            let lifted = lift_q(ints_of(m_poly@), qi, n as nat);
            lemma_layer_sum_complete(tbl, bi, max_digits as nat, n as nat, target, qi);
            assert forall|t: int| 0 <= t < n implies #[trigger] layer_sum(
                tbl,
                bi,
                max_digits as nat,
                n as nat,
            )[t] % qi == lifted[t] % qi by {
                lemma_mod_twice(target[t], qi);
            }
            lemma_poly_mul_q_congruent_right(
                pad_to(ints_of(ct.b@), n as nat),
                layer_sum(tbl, bi, max_digits as nat, n as nat),
                lifted,
                qi,
            );
            assert forall|t: int| 0 <= t < k implies #[trigger] polys_of(acc.d@)[t] == poly_mul_q(
                pad_to(polys_of(ct.d@)[t], n as nat),
                lifted,
                qi,
            ) by {
                lemma_poly_mul_q_congruent_right(
                    pad_to(polys_of(ct.d@)[t], n as nat),
                    layer_sum(tbl, bi, max_digits as nat, n as nat),
                    lifted,
                    qi,
                );
            }
        }
        acc
    }
}

/// The digit of index `i` of a decomposition, read as zero beyond its end.
pub open spec fn digit_at(s: Seq<int>, i: int) -> int {
    if 0 <= i < s.len() {
        s[i]
    } else {
        0
    }
}

/// The value the first `m` digit layers stand for:
/// `sum_{i < m} digit_at(s, i) * base^i`.
pub open spec fn digits_prefix_value(s: Seq<int>, base: int, m: nat) -> int
    decreases m,
{
    if m == 0 {
        0
    } else {
        digits_prefix_value(s, base, (m - 1) as nat) + digit_at(s, m - 1) * pow(
            base,
            (m - 1) as nat,
        )
    }
}

/// The per-coefficient partial sums across the first `i` digit layers of a
/// decomposition table.
pub open spec fn layer_sum(tbl: Seq<Seq<int>>, base: int, i: nat, n: nat) -> Seq<int> {
    Seq::new(n, |j: int| digits_prefix_value(tbl[j], base, i))
}

/// Within a decomposition's length, the prefix value is the recombined
/// value of the digits seen so far.
proof fn lemma_dpv_take(s: Seq<int>, base: int, m: nat)
    requires
        base >= 1,
        m <= s.len(),
    ensures
        digits_prefix_value(s, base, m) == chunk_value(s.take(m as int), base, 0),
    decreases m,
{
    if m > 0 {
        lemma_dpv_take(s, base, (m - 1) as nat);
        assert(s.take(m as int) =~= s.take(m as int - 1).push(s[m - 1]));
        lemma_chunk_value_push(s.take(m as int - 1), s[m - 1], base, 0);
    }
}

/// Past a decomposition's length the prefix value is complete: it equals
/// the recombined value of all its digits.
proof fn lemma_dpv_complete(s: Seq<int>, base: int, m: nat)
    requires
        base >= 1,
        m >= s.len(),
    ensures
        digits_prefix_value(s, base, m) == chunk_value(s, base, 0),
    decreases m,
{
    if m > s.len() {
        lemma_dpv_complete(s, base, (m - 1) as nat);
        assert(digit_at(s, m - 1) == 0);
    } else {
        lemma_dpv_take(s, base, m);
        assert(s.take(m as int) =~= s);
    }
}

/// Folding one more digit layer into an accumulated product: the scaled
/// digit polynomial `di` is congruent to the raw layer, so adding
/// `x * di` advances the partial sum by one layer.
proof fn lemma_layer_step(
    x: Seq<int>,
    tbl: Seq<Seq<int>>,
    di: Seq<int>,
    base: int,
    i: nat,
    q: int,
    n: nat,
    pw: int,
)
    requires
        q >= 1,
        x.len() == n,
        di.len() == n,
        tbl.len() == n,
        pw == pow(base, i) % q,
        forall|j: int| 0 <= j < n ==> #[trigger] di[j] == (digit_at(tbl[j], i as int) * pw) % q,
    ensures
        poly_add_q(poly_mul_q(x, layer_sum(tbl, base, i, n), q), poly_mul_q(x, di, q), q)
            == poly_mul_q(x, layer_sum(tbl, base, i + 1, n), q),
{
    let l0 = layer_sum(tbl, base, i, n);
    let ri = Seq::new(n, |j: int| digit_at(tbl[j], i as int) * pow(base, i));
    assert forall|j: int| 0 <= j < n implies #[trigger] di[j] % q == ri[j] % q by {
        let dg = digit_at(tbl[j], i as int);
        lemma_mod_twice(dg * pw, q);
        lemma_mul_mod_noop_right(dg, pow(base, i), q);
    }
    lemma_poly_mul_q_congruent_right(x, di, ri, q);
    lemma_poly_mul_q_add_right(x, l0, ri, q);
    assert(seq_add(l0, ri) =~= layer_sum(tbl, base, i + 1, n));
}

/// After all layers of a full decomposition table, the accumulated layer
/// sum is congruent to the decomposed polynomial itself.
proof fn lemma_layer_sum_complete(
    tbl: Seq<Seq<int>>,
    base: int,
    dmax: nat,
    n: nat,
    target: Seq<int>,
    q: int,
)
    requires
        q >= 1,
        base >= 1,
        tbl.len() == n,
        target.len() == n,
        forall|j: int| 0 <= j < n ==> #[trigger] tbl[j].len() <= dmax,
        forall|j: int| 0 <= j < n ==> chunk_value(#[trigger] tbl[j], base, 0) == target[j],
    ensures
        forall|j: int| 0 <= j < n ==> #[trigger] layer_sum(tbl, base, dmax, n)[j] % q == target[j]
            % q,
{
    assert forall|j: int| 0 <= j < n implies #[trigger] layer_sum(tbl, base, dmax, n)[j] % q
        == target[j] % q by {
        lemma_dpv_complete(tbl[j], base, dmax);
    }
}

/// The message polynomial that enters encryption: the base-p encoding of
/// the bytes, padded or truncated to length `n`.
pub open spec fn spec_message(data: Seq<u8>, params: FHEParams) -> Seq<int> {
    pad_to(spec_encode(data, params.p as int), params.n as nat)
}

/// The body of a ciphertext built from the given public key body, masking
/// polynomial `u`, message, and raw error samples:
/// `pk_b * u + delta * msg + e (mod q)`.
pub open spec fn spec_encrypt_body(
    params: FHEParams,
    pk_b: Seq<int>,
    u: Seq<int>,
    msg: Seq<int>,
    noise0: Seq<int>,
) -> Seq<int> {
    let q = params.q as int;
    poly_add_q(
        poly_add_q(poly_mul_q(pk_b, u, q), poly_scale_q(msg, params.delta_spec(), q), q),
        error_clamp(noise0, params.delta_spec() / 2),
        q,
    )
}

/// Mask slot `i` of a ciphertext: `pk_a_i * u + e_i (mod q)`.
pub open spec fn spec_encrypt_mask(
    params: FHEParams,
    pk_a_i: Seq<int>,
    u: Seq<int>,
    noise_i: Seq<int>,
) -> Seq<int> {
    let q = params.q as int;
    poly_add_q(poly_mul_q(pk_a_i, u, q), error_clamp(noise_i, params.delta_spec() / 2), q)
}

/// The phase of a ciphertext under a secret key:
/// `b - sum d_i * s_i (mod q)`, coefficient-wise canonical.
pub open spec fn spec_phase(
    params: FHEParams,
    d: Seq<Seq<int>>,
    b: Seq<int>,
    s: Seq<Seq<int>>,
) -> Seq<int> {
    let q = params.q as int;
    let n = params.n as nat;
    let k = params.k as nat;
    Seq::new(n, |i: int| (b[i] - dot_q(d, s, q, n, k)[i]) % q)
}

/// What decryption returns: the phase lifted to the centred range and
/// rounded by `delta`, coefficient by coefficient.
pub open spec fn spec_decrypt(
    params: FHEParams,
    d: Seq<Seq<int>>,
    b: Seq<int>,
    s: Seq<Seq<int>>,
) -> Seq<int> {
    Seq::new(
        params.n as nat,
        |i: int| round_div(centered_rep(spec_phase(params, d, b, s)[i], params.q as int), params.delta_spec()),
    )
}

/// A plaintext polynomial lifted to `R_q`: length exactly `n`, every
/// coefficient canonical.
pub open spec fn lift_q(m: Seq<int>, q: int, n: nat) -> Seq<int> {
    Seq::new(n, |i: int| pad_to(m, n)[i] % q)
}

} // verus!
