//! The scheme-level laws: decryption correctness and the homomorphic
//! behaviour of ciphertext addition and scalar multiplication, stated over
//! the same model the operations' contracts use.

use vstd::prelude::*;
use vstd::arithmetic::div_mod::{
    lemma_fundamental_div_mod, lemma_fundamental_div_mod_converse_div,
    lemma_fundamental_div_mod_converse_mod, lemma_small_mod, lemma_add_mod_noop,
    lemma_sub_mod_noop, lemma_mul_mod_noop_right, lemma_mod_twice,
};
use vstd::arithmetic::mul::{
    lemma_mul_is_commutative, lemma_mul_unary_negation, lemma_mul_is_distributive_add,
    lemma_mul_is_distributive_sub, lemma_mul_is_associative, lemma_mul_by_zero_is_zero,
};
use crate::fhe::FHEParams;
use crate::ring::{
    centered_rep, dot_q, poly_add_q, poly_mul_q, poly_scale_q, round_div, seq_add, seq_scale,
    zero_poly, lemma_dot_q_len, lemma_poly_mul_q_add_left, lemma_poly_mul_q_scale_left,
};
use crate::glwe::{spec_decrypt, spec_phase};

verus! {

/// Rounded division undoes the `delta` scaling as long as the additive
/// noise keeps strictly below `delta / 2` in magnitude.
pub proof fn lemma_round_div_recovers(m: int, noise: int, delta: int)
    requires
        delta >= 1,
        2 * noise < delta,
        -2 * noise < delta,
    ensures
        round_div(delta * m + noise, delta) == m,
{
    let c = delta * m + noise;
    let h = delta / 2;
    lemma_fundamental_div_mod(delta, 2);
    lemma_mul_is_commutative(delta, m);
    if c >= 0 {
        assert(c + h == m * delta + (noise + h));
        lemma_fundamental_div_mod_converse_div(c + h, delta, m, noise + h);
    } else {
        lemma_mul_unary_negation(m, delta);
        assert(-c + h == (-m) * delta + (h - noise));
        lemma_fundamental_div_mod_converse_div(-c + h, delta, -m, h - noise);
    }
}

/// The centred lift undoes canonical reduction for values in the
/// symmetric range `(-q/2, q/2]`.
pub proof fn lemma_centered_inverts(c: int, q: int)
    requires
        q >= 1,
        -q < 2 * c,
        2 * c <= q,
    ensures
        centered_rep(c % q, q) == c,
{
    lemma_fundamental_div_mod(q, 2);
    if c >= 0 {
        assert(c <= q / 2);
        lemma_small_mod(c as nat, q as nat);
    } else {
        lemma_fundamental_div_mod_converse_mod(c, q, -1, c + q);
        assert(c % q == c + q);
        assert(c + q > q / 2);
    }
}

/// A ciphertext `(d, b)` carries the message `m` with additive noise
/// `noise` under the secret key `s` when its phase is, coefficient for
/// coefficient, `delta * m + noise` modulo `q`.
pub open spec fn carries_message(
    params: FHEParams,
    d: Seq<Seq<int>>,
    b: Seq<int>,
    s: Seq<Seq<int>>,
    m: Seq<int>,
    noise: Seq<int>,
) -> bool {
    forall|i: int|
        0 <= i < params.n ==> #[trigger] spec_phase(params, d, b, s)[i] == (params.delta_spec()
            * m[i] + noise[i]) % (params.q as int)
}

/// The noise is within budget, and the scaled message plus noise does not
/// wrap around the modulus: together the precise meaning of "sufficient
/// delta" for the coefficients at hand.
pub open spec fn noise_within_budget(params: FHEParams, m: Seq<int>, noise: Seq<int>) -> bool {
    forall|i: int|
        0 <= i < params.n ==> {
            &&& 2 * #[trigger] noise[i] < params.delta_spec()
            &&& -2 * noise[i] < params.delta_spec()
            &&& -(params.q as int) < 2 * (params.delta_spec() * m[i] + noise[i])
            &&& 2 * (params.delta_spec() * m[i] + noise[i]) <= params.q as int
        }
}

/// Decryption correctness: any ciphertext that carries a message whose
/// noise stays within budget decrypts to exactly that message, in every
/// coefficient. Applied to a fresh encryption this is the encrypt/decrypt
/// round trip; the noise hypothesis is what "sufficient delta" means.
pub proof fn lemma_decrypt_exact(
    params: FHEParams,
    d: Seq<Seq<int>>,
    b: Seq<int>,
    s: Seq<Seq<int>>,
    m: Seq<int>,
    noise: Seq<int>,
)
    requires
        params.valid(),
        m.len() == params.n,
        noise.len() == params.n,
        carries_message(params, d, b, s, m, noise),
        noise_within_budget(params, m, noise),
    ensures
        spec_decrypt(params, d, b, s) == m,
{
    let q = params.q as int;
    let delta = params.delta_spec();
    assert forall|i: int| 0 <= i < params.n implies #[trigger] spec_decrypt(params, d, b, s)[i]
        == m[i] by {
        let c = delta * m[i] + noise[i];
        lemma_centered_inverts(c, q);
        lemma_round_div_recovers(m[i], noise[i], delta);
    }
    assert(spec_decrypt(params, d, b, s) =~= m);
}

/// The mask slots of the sum of two ciphertexts.
pub open spec fn masks_add(d1: Seq<Seq<int>>, d2: Seq<Seq<int>>, q: int) -> Seq<Seq<int>> {
    Seq::new(d1.len(), |i: int| poly_add_q(d1[i], d2[i], q))
}

/// The mask slots of a scaled ciphertext.
pub open spec fn masks_scale(d: Seq<Seq<int>>, c: int, q: int) -> Seq<Seq<int>> {
    Seq::new(d.len(), |i: int| poly_scale_q(d[i], c, q))
}

/// Exchanging the grouping of four canonical sums.
proof fn lemma_poly_add_q_exchange(a: Seq<int>, b: Seq<int>, c: Seq<int>, e: Seq<int>, q: int)
    requires
        q >= 1,
        a.len() == b.len(),
        b.len() == c.len(),
        c.len() == e.len(),
    ensures
        poly_add_q(poly_add_q(a, b, q), poly_add_q(c, e, q), q) == poly_add_q(
            poly_add_q(a, c, q),
            poly_add_q(b, e, q),
            q,
        ),
{
    assert forall|i: int| 0 <= i < a.len() implies poly_add_q(
        poly_add_q(a, b, q),
        poly_add_q(c, e, q),
        q,
    )[i] == poly_add_q(poly_add_q(a, c, q), poly_add_q(b, e, q), q)[i] by {
        lemma_add_mod_noop(a[i] + b[i], c[i] + e[i], q);
        lemma_add_mod_noop(a[i] + c[i], b[i] + e[i], q);
    }
    assert(poly_add_q(poly_add_q(a, b, q), poly_add_q(c, e, q), q) =~= poly_add_q(
        poly_add_q(a, c, q),
        poly_add_q(b, e, q),
        q,
    ));
}

/// Scaling distributes over a canonical sum.
proof fn lemma_poly_scale_q_add(a: Seq<int>, b: Seq<int>, c: int, q: int)
    requires
        q >= 1,
        a.len() == b.len(),
    ensures
        poly_add_q(poly_scale_q(a, c, q), poly_scale_q(b, c, q), q) == poly_scale_q(
            poly_add_q(a, b, q),
            c,
            q,
        ),
{
    assert forall|i: int| 0 <= i < a.len() implies poly_add_q(
        poly_scale_q(a, c, q),
        poly_scale_q(b, c, q),
        q,
    )[i] == poly_scale_q(poly_add_q(a, b, q), c, q)[i] by {
        lemma_add_mod_noop(c * a[i], c * b[i], q);
        lemma_mul_is_distributive_add(c, a[i], b[i]);
        lemma_mul_mod_noop_right(c, a[i] + b[i], q);
    }
    assert(poly_add_q(poly_scale_q(a, c, q), poly_scale_q(b, c, q), q) =~= poly_scale_q(
        poly_add_q(a, b, q),
        c,
        q,
    ));
}

/// The masked sum distributes over ciphertext addition.
proof fn lemma_dot_q_add(
    d1: Seq<Seq<int>>,
    d2: Seq<Seq<int>>,
    s: Seq<Seq<int>>,
    q: int,
    n: nat,
    m: nat,
)
    requires
        q >= 1,
        d1.len() == d2.len(),
        m <= d1.len(),
        m <= s.len(),
        forall|i: int| 0 <= i < m ==> #[trigger] d1[i].len() == n,
        forall|i: int| 0 <= i < m ==> #[trigger] d2[i].len() == n,
        forall|i: int| 0 <= i < m ==> #[trigger] s[i].len() == n,
    ensures
        dot_q(masks_add(d1, d2, q), s, q, n, m) == poly_add_q(
            dot_q(d1, s, q, n, m),
            dot_q(d2, s, q, n, m),
            q,
        ),
    decreases m,
{
    if m == 0 {
        assert forall|i: int| 0 <= i < n implies poly_add_q(zero_poly(n), zero_poly(n), q)[i]
            == 0 by {
            lemma_small_mod(0nat, q as nat);
        }
        assert(poly_add_q(zero_poly(n), zero_poly(n), q) =~= zero_poly(n));
    } else {
        lemma_dot_q_add(d1, d2, s, q, n, (m - 1) as nat);
        lemma_dot_q_len(d1, s, q, n, (m - 1) as nat);
        lemma_dot_q_len(d2, s, q, n, (m - 1) as nat);
        lemma_poly_mul_q_add_left(d1[m - 1], d2[m - 1], s[m - 1], q);
        assert(masks_add(d1, d2, q)[m - 1] == poly_add_q(d1[m - 1], d2[m - 1], q));
        lemma_poly_add_q_exchange(
            dot_q(d1, s, q, n, (m - 1) as nat),
            dot_q(d2, s, q, n, (m - 1) as nat),
            poly_mul_q(d1[m - 1], s[m - 1], q),
            poly_mul_q(d2[m - 1], s[m - 1], q),
            q,
        );
    }
}

/// The masked sum commutes with scalar multiplication.
proof fn lemma_dot_q_scale(d: Seq<Seq<int>>, s: Seq<Seq<int>>, c: int, q: int, n: nat, m: nat)
    requires
        q >= 1,
        m <= d.len(),
        m <= s.len(),
        forall|i: int| 0 <= i < m ==> #[trigger] d[i].len() == n,
        forall|i: int| 0 <= i < m ==> #[trigger] s[i].len() == n,
    ensures
        dot_q(masks_scale(d, c, q), s, q, n, m) == poly_scale_q(dot_q(d, s, q, n, m), c, q),
    decreases m,
{
    if m == 0 {
        assert forall|i: int| 0 <= i < n implies poly_scale_q(zero_poly(n), c, q)[i] == 0 by {
            lemma_mul_by_zero_is_zero(c);
            lemma_small_mod(0nat, q as nat);
        }
        assert(poly_scale_q(zero_poly(n), c, q) =~= zero_poly(n));
    } else {
        lemma_dot_q_scale(d, s, c, q, n, (m - 1) as nat);
        lemma_dot_q_len(d, s, q, n, (m - 1) as nat);
        lemma_poly_mul_q_scale_left(d[m - 1], s[m - 1], c, q);
        assert(masks_scale(d, c, q)[m - 1] == poly_scale_q(d[m - 1], c, q));
        lemma_poly_scale_q_add(
            dot_q(d, s, q, n, (m - 1) as nat),
            poly_mul_q(d[m - 1], s[m - 1], q),
            c,
            q,
        );
    }
}

/// Homomorphic additivity: the sum of two ciphertexts carries the sum of
/// their messages with the sum of their noises, so it decrypts to the
/// coefficient-wise sum of the messages while the combined noise stays
/// within budget.
pub proof fn lemma_homomorphic_add(
    params: FHEParams,
    d1: Seq<Seq<int>>,
    b1: Seq<int>,
    d2: Seq<Seq<int>>,
    b2: Seq<int>,
    s: Seq<Seq<int>>,
    m1: Seq<int>,
    noise1: Seq<int>,
    m2: Seq<int>,
    noise2: Seq<int>,
)
    requires
        params.valid(),
        d1.len() == params.k,
        d2.len() == params.k,
        s.len() == params.k,
        forall|i: int| 0 <= i < params.k ==> #[trigger] d1[i].len() == params.n,
        forall|i: int| 0 <= i < params.k ==> #[trigger] d2[i].len() == params.n,
        forall|i: int| 0 <= i < params.k ==> #[trigger] s[i].len() == params.n,
        b1.len() == params.n,
        b2.len() == params.n,
        m1.len() == params.n,
        m2.len() == params.n,
        noise1.len() == params.n,
        noise2.len() == params.n,
        carries_message(params, d1, b1, s, m1, noise1),
        carries_message(params, d2, b2, s, m2, noise2),
        noise_within_budget(params, seq_add(m1, m2), seq_add(noise1, noise2)),
    ensures
        spec_decrypt(params, masks_add(d1, d2, params.q as int), poly_add_q(b1, b2, params.q as int), s)
            == seq_add(m1, m2),
{
    let q = params.q as int;
    let n = params.n as nat;
    let k = params.k as nat;
    let delta = params.delta_spec();
    let d_add = masks_add(d1, d2, q);
    let b_add = poly_add_q(b1, b2, q);
    lemma_dot_q_add(d1, d2, s, q, n, k);
    lemma_dot_q_len(d1, s, q, n, k);
    lemma_dot_q_len(d2, s, q, n, k);
    lemma_dot_q_len(d_add, s, q, n, k);
    let dot1 = dot_q(d1, s, q, n, k);
    let dot2 = dot_q(d2, s, q, n, k);
    assert forall|i: int| 0 <= i < params.n implies #[trigger] spec_phase(params, d_add, b_add, s)[i]
        == (delta * seq_add(m1, m2)[i] + seq_add(noise1, noise2)[i]) % q by {
        assert(dot_q(d_add, s, q, n, k)[i] == (dot1[i] + dot2[i]) % q);
        lemma_sub_mod_noop(b1[i] + b2[i], dot1[i] + dot2[i], q);
        assert((b_add[i] - dot_q(d_add, s, q, n, k)[i]) % q == ((b1[i] + b2[i]) - (dot1[i]
            + dot2[i])) % q) by {
            lemma_mod_twice(b1[i] + b2[i], q);
            lemma_mod_twice(dot1[i] + dot2[i], q);
        }
        lemma_add_mod_noop(b1[i] - dot1[i], b2[i] - dot2[i], q);
        assert(spec_phase(params, d1, b1, s)[i] == (b1[i] - dot1[i]) % q);
        assert(spec_phase(params, d2, b2, s)[i] == (b2[i] - dot2[i]) % q);
        lemma_add_mod_noop(delta * m1[i] + noise1[i], delta * m2[i] + noise2[i], q);
        lemma_mul_is_distributive_add(delta, m1[i], m2[i]);
    }
    lemma_decrypt_exact(params, d_add, b_add, s, seq_add(m1, m2), seq_add(noise1, noise2));
}

/// Homomorphic scalar multiplication: scaling a ciphertext by a cleartext
/// integer `c` scales its message and its noise by `c`, so it decrypts to
/// the scaled message while the scaled noise stays within budget.
pub proof fn lemma_homomorphic_scale(
    params: FHEParams,
    d: Seq<Seq<int>>,
    b: Seq<int>,
    s: Seq<Seq<int>>,
    m: Seq<int>,
    noise: Seq<int>,
    c: int,
)
    requires
        params.valid(),
        d.len() == params.k,
        s.len() == params.k,
        forall|i: int| 0 <= i < params.k ==> #[trigger] d[i].len() == params.n,
        forall|i: int| 0 <= i < params.k ==> #[trigger] s[i].len() == params.n,
        b.len() == params.n,
        m.len() == params.n,
        noise.len() == params.n,
        carries_message(params, d, b, s, m, noise),
        noise_within_budget(params, seq_scale(m, c), seq_scale(noise, c)),
    ensures
        spec_decrypt(params, masks_scale(d, c, params.q as int), poly_scale_q(b, c, params.q as int), s)
            == seq_scale(m, c),
{
    let q = params.q as int;
    let n = params.n as nat;
    let k = params.k as nat;
    let delta = params.delta_spec();
    let d_sc = masks_scale(d, c, q);
    let b_sc = poly_scale_q(b, c, q);
    lemma_dot_q_scale(d, s, c, q, n, k);
    lemma_dot_q_len(d, s, q, n, k);
    lemma_dot_q_len(d_sc, s, q, n, k);
    let dt = dot_q(d, s, q, n, k);
    assert forall|i: int| 0 <= i < params.n implies #[trigger] spec_phase(params, d_sc, b_sc, s)[i]
        == (delta * seq_scale(m, c)[i] + seq_scale(noise, c)[i]) % q by {
        assert(dot_q(d_sc, s, q, n, k)[i] == (c * dt[i]) % q);
        assert((b_sc[i] - dot_q(d_sc, s, q, n, k)[i]) % q == (c * b[i] - c * dt[i]) % q) by {
            lemma_sub_mod_noop(c * b[i], c * dt[i], q);
            lemma_mod_twice(c * b[i], q);
            lemma_mod_twice(c * dt[i], q);
        }
        lemma_mul_is_distributive_sub(c, b[i], dt[i]);
        lemma_mul_mod_noop_right(c, b[i] - dt[i], q);
        assert(spec_phase(params, d, b, s)[i] == (b[i] - dt[i]) % q);
        lemma_mul_mod_noop_right(c, delta * m[i] + noise[i], q);
        lemma_mul_is_distributive_add(c, delta * m[i], noise[i]);
        lemma_mul_is_associative(c, delta, m[i]);
        lemma_mul_is_associative(delta, c, m[i]);
        lemma_mul_is_commutative(c, delta);
    }
    lemma_decrypt_exact(params, d_sc, b_sc, s, seq_scale(m, c), seq_scale(noise, c));
}

} // verus!
