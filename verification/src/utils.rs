//! Modular arithmetic primitives and the two ring operations on raw
//! coefficient vectors.

use vstd::prelude::*;
use vstd::arithmetic::div_mod::{
    lemma_fundamental_div_mod, lemma_fundamental_div_mod_converse_mod, lemma_div_basics_2,
    lemma_div_is_ordered, lemma_div_is_ordered_by_denominator, lemma_add_mod_noop_right,
    lemma_small_mod, lemma_sub_mod_noop, lemma_mod_bound,
};
use crate::fhe::FHEParams;
use crate::ring::{
    centered_rep, conv_sum, conv_term, ints_of, pad_to, poly_add_q, poly_mul_q, round_div,
};

verus! {

/// The canonical representative of `x` modulo `q`: the unique `r` in
/// `[0, q)` with `r ≡ x (mod q)`. The wide argument lets callers reduce
/// sums and products of 64-bit coefficients without overflow.
pub fn mod_q_i64(x: i128, q: i64) -> (r: i64)
    requires
        q >= 1,
    ensures
        r as int == (x as int) % (q as int),
        0 <= r < q,
{
    let qi: i128 = q as i128;
    let v: i128 = x % qi;
    proof {
        if x < 0 {
            let m = (-(x as int)) % (qi as int);
            let t = (-(x as int)) / (qi as int);
            lemma_fundamental_div_mod(-(x as int), qi as int);
            if m == 0 {
                assert(x as int == (-t) * (qi as int)) by (nonlinear_arith)
                    requires
                        -(x as int) == qi as int * t + m,
                        m == 0,
                ;
                lemma_fundamental_div_mod_converse_mod(x as int, qi as int, -t, 0);
            } else {
                assert(x as int == (-t - 1) * (qi as int) + (qi as int - m)) by (nonlinear_arith)
                    requires
                        -(x as int) == qi as int * t + m,
                ;
                lemma_fundamental_div_mod_converse_mod(x as int, qi as int, -t - 1, qi - m);
            }
        }
    }
    if v < 0 {
        (v + qi) as i64
    } else {
        v as i64
    }
}

/// Lifts a canonical residue `c` in `[0, q)` into the symmetric range
/// around zero: coefficients above `q/2` become negative.
pub fn center_to_signed(c: i64, q: i64) -> (r: i64)
    requires
        q >= 1,
        0 <= c < q,
    ensures
        r as int == centered_rep(c as int, q as int),
{
    if c > q / 2 {
        c - q
    } else {
        c
    }
}

/// Round-to-nearest division for signed numerators, ties rounding away
/// from zero.
pub fn div_round_signed(centered: i64, delta: i64) -> (r: i64)
    requires
        delta >= 1,
    ensures
        r as int == round_div(centered as int, delta as int),
{
    let di: i128 = delta as i128;
    let half: i128 = di / 2;
    if centered >= 0 {
        let v: i128 = (centered as i128 + half) / di;
        proof {
            lemma_div_bound_for_i64(centered as int + half as int, di as int);
        }
        v as i64
    } else {
        let v: i128 = -((-(centered as i128) + half) / di);
        proof {
            lemma_div_bound_for_i64(-(centered as int) + half as int, di as int);
        }
        v as i64
    }
}

/// Bounds the quotient of a nonnegative numerator below `2^64` so that the
/// rounded division above fits an `i64`: for `d == 1` the quotient is the
/// numerator itself, otherwise it is at most `2^63 - 1`.
proof fn lemma_div_bound_for_i64(x: int, d: int)
    requires
        d >= 1,
        0 <= x < 0x1_0000_0000_0000_0000,
    ensures
        0 <= x / d,
        d == 1 ==> x / d == x,
        d >= 2 ==> x / d <= 0x7fff_ffff_ffff_ffff,
{
    lemma_div_basics_2(x);
    if d >= 2 {
        lemma_div_is_ordered_by_denominator(x, 2, d);
        lemma_div_is_ordered(x, 0xffff_ffff_ffff_ffff, 2);
    }
}

/// Pads `vec` with zeros, or truncates it, to length exactly `n`.
pub fn ensure_len(vec: &mut Vec<i64>, n: usize)
    ensures
        ints_of(final(vec)@) == pad_to(ints_of(old(vec)@), n as nat),
        final(vec)@.len() == n,
{
    if vec.len() > n {
        vec.truncate(n);
    }
    while vec.len() < n
        invariant
            vec@.len() <= n,
            old(vec)@.len() >= n ==> vec@.len() == n,
            old(vec)@.len() < n ==> vec@.len() >= old(vec)@.len(),
            forall|i: int|
                0 <= i < vec@.len() ==> vec@[i] == (if i < old(vec)@.len() {
                    old(vec)@[i]
                } else {
                    0i64
                }),
        decreases n - vec@.len(),
    {
        vec.push(0i64);
    }
    proof {
        assert(ints_of(vec@) =~= pad_to(ints_of(old(vec)@), n as nat));
    }
}

/// Coefficient-wise addition in `R_q`, in place in `vec1`. Both operands
/// are first padded or truncated to length `n`.
#[verifier::loop_isolation(false)]
pub fn poly_add(params: &FHEParams, vec1: &mut Vec<i64>, vec2: &Vec<i64>)
    requires
        params.q >= 1,
    ensures
        ints_of(final(vec1)@) == poly_add_q(
            pad_to(ints_of(old(vec1)@), params.n as nat),
            pad_to(ints_of(vec2@), params.n as nat),
            params.q as int,
        ),
        final(vec1)@.len() == params.n,
        forall|i: int| 0 <= i < params.n ==> 0 <= #[trigger] final(vec1)@[i] < params.q,
{
    let ghost a = pad_to(ints_of(old(vec1)@), params.n as nat);
    let ghost b = pad_to(ints_of(vec2@), params.n as nat);
    ensure_len(vec1, params.n);
    let n = params.n;
    let q = params.q;
    let mut i: usize = 0;
    while i < n
        invariant
            vec1@.len() == n,
            i <= n,
            forall|j: int| i <= j < n ==> #[trigger] vec1@[j] as int == a[j],
            forall|j: int| 0 <= j < i ==> #[trigger] vec1@[j] as int == (a[j] + b[j]) % (q as int),
        decreases n - i,
    {
        let x: i64 = vec1[i];
        let y: i64 = if i < vec2.len() {
            vec2[i]
        } else {
            0
        };
        let s: i64 = mod_q_i64(x as i128 + y as i128, q);
        vec1.set(i, s);
        i += 1;
    }
    proof {
        assert(ints_of(vec1@) =~= poly_add_q(a, b, q as int));
    }
}

/// Records which output indices of the schoolbook loop already carry the
/// contribution of row `i`: while the inner loop stands at column `j`, the
/// indices hit so far in this row are exactly those with `(k - i) % n < j`.
spec fn row_progress(k: int, i: nat, j: nat, n: nat) -> nat {
    if (k - i) % (n as int) < j {
        (i + 1) as nat
    } else {
        i as nat
    }
}

/// Negacyclic product in `R_q`: the schoolbook convolution with the
/// `x^n = -1` sign flip, every output coefficient canonical. Operands are
/// first padded or truncated to length `n`.
#[verifier::loop_isolation(false)]
pub fn poly_mul(params: &FHEParams, a: &Vec<i64>, b: &Vec<i64>) -> (res: Vec<i64>)
    requires
        params.q >= 1,
        params.n < usize::MAX / 2,
    ensures
        ints_of(res@) == poly_mul_q(
            pad_to(ints_of(a@), params.n as nat),
            pad_to(ints_of(b@), params.n as nat),
            params.q as int,
        ),
        res@.len() == params.n,
        forall|i: int| 0 <= i < params.n ==> 0 <= #[trigger] res@[i] < params.q,
{
    let n = params.n;
    let q = params.q;
    let ghost aa_model = pad_to(ints_of(a@), n as nat);
    let ghost bb_model = pad_to(ints_of(b@), n as nat);

    let mut aa: Vec<i64> = Vec::new();
    let mut t: usize = 0;
    while t < n
        invariant
            t <= n,
            aa@.len() == t,
            forall|j: int| 0 <= j < t ==> #[trigger] aa@[j] as int == aa_model[j],
        decreases n - t,
    {
        aa.push(if t < a.len() {
            a[t]
        } else {
            0
        });
        t += 1;
    }
    let mut bb: Vec<i64> = Vec::new();
    let mut u: usize = 0;
    while u < n
        invariant
            u <= n,
            bb@.len() == u,
            forall|j: int| 0 <= j < u ==> #[trigger] bb@[j] as int == bb_model[j],
        decreases n - u,
    {
        bb.push(if u < b.len() {
            b[u]
        } else {
            0
        });
        u += 1;
    }

    let mut res: Vec<i64> = Vec::new();
    let mut z: usize = 0;
    while z < n
        invariant
            z <= n,
            res@.len() == z,
            forall|j: int| 0 <= j < z ==> #[trigger] res@[j] == 0i64,
        decreases n - z,
    {
        res.push(0i64);
        z += 1;
    }

    proof {
        lemma_small_mod(0nat, q as nat);
    }
    let mut i: usize = 0;
    while i < n
        invariant
            i <= n,
            res@.len() == n,
            forall|k: int|
                0 <= k < n ==> #[trigger] res@[k] as int == conv_sum(aa_model, bb_model, k, i as nat)
                    % (q as int),
        decreases n - i,
    {
        let mut j: usize = 0;
        while j < n
            invariant
                j <= n,
                i < n,
                res@.len() == n,
                forall|k: int|
                    0 <= k < n ==> #[trigger] res@[k] as int == conv_sum(
                        aa_model,
                        bb_model,
                        k,
                        row_progress(k, i as nat, j as nat, n as nat),
                    ) % (q as int),
            decreases n - j,
        {
            let k: usize = (i + j) % n;
            let ai: i64 = aa[i];
            let bj: i64 = bb[j];
            proof {
                assert(-0x4000_0000_0000_0000_0000_0000_0000_0000
                    <= (ai as int) * (bj as int)
                    <= 0x4000_0000_0000_0000_0000_0000_0000_0000) by (nonlinear_arith);
            }
            let mut prod: i128 = (ai as i128) * (bj as i128);
            if i + j >= n {
                prod = -prod;
            }
            let ghost old_res = res@;
            let acc: i128 = res[k] as i128 + prod;
            let red: i64 = mod_q_i64(acc, q);
            res.set(k, red);
            proof {
                let ni = n as int;
                let qi = q as int;
                let ki = k as int;
                // The output index hit by this step is `(i + j) % n`, and the
                // signed product is exactly the convolution term of row `i`.
                if i + j < n {
                    lemma_small_mod((i + j) as nat, n as nat);
                    assert(ki == i + j);
                } else {
                    lemma_fundamental_div_mod_converse_mod((i + j) as int, ni, 1, (i + j) as int - ni);
                    assert(ki == i + j - ni);
                }
                assert(prod as int == conv_term(aa_model, bb_model, ki, i as int));
                // This row had not touched index `k` before this step:
                // `(k - i) % n == j`.
                lemma_small_mod(i as nat, n as nat);
                lemma_small_mod(j as nat, n as nat);
                lemma_sub_mod_noop((i + j) as int, i as int, ni);
                assert((ki - i) % ni == j);
                assert(row_progress(ki, i as nat, j as nat, n as nat) == i as nat);
                // Fold the new term into the running canonical sum.
                let s = conv_sum(aa_model, bb_model, ki, i as nat);
                lemma_add_mod_noop_right(prod as int, s, qi);
                assert(res@[ki] as int == conv_sum(aa_model, bb_model, ki, (i + 1) as nat) % qi);
                // Every other index keeps its previous progress count.
                assert forall|k2: int| 0 <= k2 < n && k2 != ki implies #[trigger] res@[k2] as int
                    == conv_sum(
                    aa_model,
                    bb_model,
                    k2,
                    row_progress(k2, i as nat, (j + 1) as nat, n as nat),
                ) % qi by {
                    lemma_mod_bound(k2 - i, ni);
                    if (k2 - i) % ni == j {
                        // Then `k2 ≡ i + j (mod n)`, so `k2` would be `k`.
                        lemma_add_mod_noop_right(i as int, k2 - i, ni);
                        lemma_small_mod(k2 as nat, n as nat);
                        assert(k2 == ki);
                    }
                    assert(res@[k2] == old_res[k2]);
                }
            }
            j += 1;
        }
        proof {
            assert forall|k: int| 0 <= k < n implies row_progress(k, i as nat, n as nat, n as nat)
                == (i + 1) as nat by {
                lemma_mod_bound(k - i, n as int);
            }
        }
        i += 1;
    }
    proof {
        assert(ints_of(res@) =~= poly_mul_q(aa_model, bb_model, q as int));
    }
    res
}

} // verus!
