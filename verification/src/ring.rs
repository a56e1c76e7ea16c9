//! Mathematical model of the negacyclic ring `Z_q[x] / (x^n + 1)`.
//!
//! Polynomials are modelled as sequences of unbounded integers; a coefficient
//! vector of the executable code is lifted into this model with [`ints_of`].
//! All reductions use the canonical representative in `[0, q)`, which is the
//! Euclidean `%` of specification arithmetic.

use vstd::prelude::*;
use vstd::arithmetic::div_mod::{
    lemma_add_mod_noop, lemma_add_mod_noop_right, lemma_sub_mod_noop, lemma_mul_mod_noop_right,
    lemma_mul_mod_noop_left, lemma_mod_twice, lemma_small_mod,
    lemma_fundamental_div_mod_converse_mod,
};
use vstd::arithmetic::mul::{
    lemma_mul_is_distributive_add, lemma_mul_is_distributive_add_other_way,
    lemma_mul_is_associative, lemma_mul_unary_negation, lemma_mul_by_zero_is_zero,
};

verus! {

/// View of a coefficient vector as a sequence of unbounded integers.
pub open spec fn ints_of(s: Seq<i64>) -> Seq<int> {
    s.map_values(|x: i64| x as int)
}

/// View of a vector of polynomials.
pub open spec fn polys_of(s: Seq<Vec<i64>>) -> Seq<Seq<int>> {
    s.map_values(|v: Vec<i64>| ints_of(v@))
}

/// `s` zero-padded or truncated to length exactly `n`.
pub open spec fn pad_to(s: Seq<int>, n: nat) -> Seq<int> {
    Seq::new(n, |i: int| if i < s.len() { s[i] } else { 0 })
}

/// The centred lift of a canonical residue `c` in `[0, q)` into the
/// symmetric range around zero.
pub open spec fn centered_rep(c: int, q: int) -> int {
    if c > q / 2 {
        c - q
    } else {
        c
    }
}

/// Signed round-to-nearest division, ties rounding away from zero.
pub open spec fn round_div(c: int, d: int) -> int {
    if c >= 0 {
        (c + d / 2) / d
    } else {
        -((-c + d / 2) / d)
    }
}

/// Truncating signed remainder, exactly as the executable `%` computes it.
pub open spec fn sym_rem(x: int, m: int) -> int {
    if x >= 0 {
        x % m
    } else {
        -((-x) % m)
    }
}

/// The term of index `i` in the negacyclic convolution sum for output
/// index `k` of `a * b`: the product `a[i] * b[j]` lands at output index
/// `(i + j) % n`, negated when `i + j >= n` because `x^n = -1`.
pub open spec fn conv_term(a: Seq<int>, b: Seq<int>, k: int, i: int) -> int {
    if i <= k {
        a[i] * b[k - i]
    } else {
        -(a[i] * b[k - i + a.len()])
    }
}

/// Sum of the negacyclic convolution terms with first index `i < m`.
pub open spec fn conv_sum(a: Seq<int>, b: Seq<int>, k: int, m: nat) -> int
    decreases m,
{
    if m == 0 {
        0
    } else {
        conv_sum(a, b, k, (m - 1) as nat) + conv_term(a, b, k, m - 1)
    }
}

/// Coefficient `k` of the negacyclic product of two length-`n` polynomials,
/// before modular reduction.
pub open spec fn conv_coeff(a: Seq<int>, b: Seq<int>, k: int) -> int {
    conv_sum(a, b, k, a.len())
}

/// Negacyclic product in `R_q`: schoolbook convolution with the wrap-around
/// sign flip, each coefficient reduced to its canonical representative.
pub open spec fn poly_mul_q(a: Seq<int>, b: Seq<int>, q: int) -> Seq<int> {
    Seq::new(a.len(), |k: int| conv_coeff(a, b, k) % q)
}

/// Coefficient-wise sum in `R_q`.
pub open spec fn poly_add_q(a: Seq<int>, b: Seq<int>, q: int) -> Seq<int> {
    Seq::new(a.len(), |i: int| (a[i] + b[i]) % q)
}

/// Coefficient-wise scaling in `R_q`.
pub open spec fn poly_scale_q(a: Seq<int>, c: int, q: int) -> Seq<int> {
    Seq::new(a.len(), |i: int| (c * a[i]) % q)
}

/// The zero polynomial of length `n`.
pub open spec fn zero_poly(n: nat) -> Seq<int> {
    Seq::new(n, |i: int| 0)
}

/// `sum_{i < m} d[i] * s[i]` in `R_q`, accumulated left to right over
/// length-`n` polynomials.
pub open spec fn dot_q(d: Seq<Seq<int>>, s: Seq<Seq<int>>, q: int, n: nat, m: nat) -> Seq<int>
    decreases m,
{
    if m == 0 {
        zero_poly(n)
    } else {
        poly_add_q(dot_q(d, s, q, n, (m - 1) as nat), poly_mul_q(d[m - 1], s[m - 1], q), q)
    }
}

/// Padding to a sequence's own length changes nothing.
pub proof fn lemma_pad_to_id(s: Seq<int>, n: nat)
    requires
        s.len() == n,
    ensures
        pad_to(s, n) == s,
{
    assert(pad_to(s, n) =~= s);
}

/// `dot_q` only reads the first `m` entries of its operand sequences.
pub proof fn lemma_dot_q_prefix(
    d1: Seq<Seq<int>>,
    d2: Seq<Seq<int>>,
    s: Seq<Seq<int>>,
    q: int,
    n: nat,
    m: nat,
)
    requires
        forall|i: int| 0 <= i < m ==> #[trigger] d1[i] == d2[i],
    ensures
        dot_q(d1, s, q, n, m) == dot_q(d2, s, q, n, m),
    decreases m,
{
    if m > 0 {
        lemma_dot_q_prefix(d1, d2, s, q, n, (m - 1) as nat);
    }
}

/// The masked sum always has length `n`.
pub proof fn lemma_dot_q_len(d: Seq<Seq<int>>, s: Seq<Seq<int>>, q: int, n: nat, m: nat)
    ensures
        dot_q(d, s, q, n, m).len() == n,
    decreases m,
{
    if m > 0 {
        lemma_dot_q_len(d, s, q, n, (m - 1) as nat);
    }
}

/// A well-formed ring element: length `n`, every coefficient canonical.
pub open spec fn poly_wf(p: Seq<int>, n: nat, q: int) -> bool {
    &&& p.len() == n
    &&& forall|i: int| 0 <= i < n ==> 0 <= #[trigger] p[i] < q
}

/// A well-formed vector of `k` ring elements.
pub open spec fn polys_wf(ps: Seq<Seq<int>>, k: nat, n: nat, q: int) -> bool {
    &&& ps.len() == k
    &&& forall|i: int| 0 <= i < k ==> poly_wf(#[trigger] ps[i], n, q)
}

/// A polynomial with coefficients in `{0, 1}`.
pub open spec fn binary_poly(p: Seq<int>, n: nat) -> bool {
    &&& p.len() == n
    &&& forall|i: int| 0 <= i < n ==> (#[trigger] p[i] == 0 || p[i] == 1)
}

/// Coefficient-wise sum, without reduction.
pub open spec fn seq_add(a: Seq<int>, b: Seq<int>) -> Seq<int> {
    Seq::new(a.len(), |i: int| a[i] + b[i])
}

/// Coefficient-wise scaling, without reduction.
pub open spec fn seq_scale(a: Seq<int>, c: int) -> Seq<int> {
    Seq::new(a.len(), |i: int| c * a[i])
}

/// The monomial `x^e` as a length-`n` coefficient vector.
pub open spec fn unit_poly(n: nat, e: int) -> Seq<int> {
    Seq::new(n, |i: int| if i == e { 1int } else { 0int })
}

/// Congruent second operands give congruent convolution sums.
pub proof fn lemma_conv_sum_congruent_right(
    a: Seq<int>,
    b1: Seq<int>,
    b2: Seq<int>,
    q: int,
    k: int,
    m: nat,
)
    requires
        q >= 1,
        b1.len() == a.len(),
        b2.len() == a.len(),
        0 <= k < a.len(),
        m <= a.len(),
        forall|j: int| 0 <= j < a.len() ==> #[trigger] b1[j] % q == b2[j] % q,
    ensures
        conv_sum(a, b1, k, m) % q == conv_sum(a, b2, k, m) % q,
    decreases m,
{
    if m > 0 {
        lemma_conv_sum_congruent_right(a, b1, b2, q, k, (m - 1) as nat);
        let i = m - 1;
        let j = if i <= k {
            k - i
        } else {
            k - i + a.len() as int
        };
        lemma_mul_mod_noop_right(a[i], b1[j], q);
        lemma_mul_mod_noop_right(a[i], b2[j], q);
        assert((a[i] * b1[j]) % q == (a[i] * b2[j]) % q);
        if i > k {
            lemma_sub_mod_noop(0, a[i] * b1[j], q);
            lemma_sub_mod_noop(0, a[i] * b2[j], q);
        }
        assert(conv_term(a, b1, k, i) % q == conv_term(a, b2, k, i) % q);
        lemma_add_mod_noop(conv_sum(a, b1, k, (m - 1) as nat), conv_term(a, b1, k, i), q);
        lemma_add_mod_noop(conv_sum(a, b2, k, (m - 1) as nat), conv_term(a, b2, k, i), q);
    }
}

/// Congruent first operands give congruent convolution sums.
pub proof fn lemma_conv_sum_congruent_left(
    a1: Seq<int>,
    a2: Seq<int>,
    b: Seq<int>,
    q: int,
    k: int,
    m: nat,
)
    requires
        q >= 1,
        a1.len() == a2.len(),
        b.len() == a1.len(),
        0 <= k < a1.len(),
        m <= a1.len(),
        forall|j: int| 0 <= j < a1.len() ==> #[trigger] a1[j] % q == a2[j] % q,
    ensures
        conv_sum(a1, b, k, m) % q == conv_sum(a2, b, k, m) % q,
    decreases m,
{
    if m > 0 {
        lemma_conv_sum_congruent_left(a1, a2, b, q, k, (m - 1) as nat);
        let i = m - 1;
        let j = if i <= k {
            k - i
        } else {
            k - i + a1.len() as int
        };
        lemma_mul_mod_noop_left(a1[i], b[j], q);
        lemma_mul_mod_noop_left(a2[i], b[j], q);
        assert((a1[i] * b[j]) % q == (a2[i] * b[j]) % q);
        if i > k {
            lemma_sub_mod_noop(0, a1[i] * b[j], q);
            lemma_sub_mod_noop(0, a2[i] * b[j], q);
        }
        assert(conv_term(a1, b, k, i) % q == conv_term(a2, b, k, i) % q);
        lemma_add_mod_noop(conv_sum(a1, b, k, (m - 1) as nat), conv_term(a1, b, k, i), q);
        lemma_add_mod_noop(conv_sum(a2, b, k, (m - 1) as nat), conv_term(a2, b, k, i), q);
    }
}

/// The convolution sum is additive in its second operand.
pub proof fn lemma_conv_sum_add_right(a: Seq<int>, b1: Seq<int>, b2: Seq<int>, k: int, m: nat)
    requires
        b1.len() == a.len(),
        b2.len() == a.len(),
        0 <= k < a.len(),
        m <= a.len(),
    ensures
        conv_sum(a, seq_add(b1, b2), k, m) == conv_sum(a, b1, k, m) + conv_sum(a, b2, k, m),
    decreases m,
{
    if m > 0 {
        lemma_conv_sum_add_right(a, b1, b2, k, (m - 1) as nat);
        let i = m - 1;
        let j = if i <= k {
            k - i
        } else {
            k - i + a.len() as int
        };
        lemma_mul_is_distributive_add(a[i], b1[j], b2[j]);
        assert(conv_term(a, seq_add(b1, b2), k, i) == conv_term(a, b1, k, i) + conv_term(
            a,
            b2,
            k,
            i,
        ));
    }
}

/// The convolution sum is additive in its first operand.
pub proof fn lemma_conv_sum_add_left(a1: Seq<int>, a2: Seq<int>, b: Seq<int>, k: int, m: nat)
    requires
        a1.len() == a2.len(),
        b.len() == a1.len(),
        0 <= k < a1.len(),
        m <= a1.len(),
    ensures
        conv_sum(seq_add(a1, a2), b, k, m) == conv_sum(a1, b, k, m) + conv_sum(a2, b, k, m),
    decreases m,
{
    if m > 0 {
        lemma_conv_sum_add_left(a1, a2, b, k, (m - 1) as nat);
        let i = m - 1;
        let j = if i <= k {
            k - i
        } else {
            k - i + a1.len() as int
        };
        lemma_mul_is_distributive_add_other_way(b[j], a1[i], a2[i]);
        assert(conv_term(seq_add(a1, a2), b, k, i) == conv_term(a1, b, k, i) + conv_term(
            a2,
            b,
            k,
            i,
        ));
    }
}

/// Scaling the first operand scales the convolution sum.
pub proof fn lemma_conv_sum_scale_left(a: Seq<int>, b: Seq<int>, c: int, k: int, m: nat)
    requires
        b.len() == a.len(),
        0 <= k < a.len(),
        m <= a.len(),
    ensures
        conv_sum(seq_scale(a, c), b, k, m) == c * conv_sum(a, b, k, m),
    decreases m,
{
    if m > 0 {
        lemma_conv_sum_scale_left(a, b, c, k, (m - 1) as nat);
        let i = m - 1;
        let j = if i <= k {
            k - i
        } else {
            k - i + a.len() as int
        };
        lemma_mul_is_associative(c, a[i], b[j]);
        lemma_mul_unary_negation(c, a[i] * b[j]);
        assert(conv_term(seq_scale(a, c), b, k, i) == c * conv_term(a, b, k, i));
        lemma_mul_is_distributive_add(c, conv_sum(a, b, k, (m - 1) as nat), conv_term(a, b, k, i));
    }
}

/// Canonical form: congruent second operands give the same product in `R_q`.
pub proof fn lemma_poly_mul_q_congruent_right(x: Seq<int>, y1: Seq<int>, y2: Seq<int>, q: int)
    requires
        q >= 1,
        y1.len() == x.len(),
        y2.len() == x.len(),
        forall|j: int| 0 <= j < x.len() ==> #[trigger] y1[j] % q == y2[j] % q,
    ensures
        poly_mul_q(x, y1, q) == poly_mul_q(x, y2, q),
{
    assert forall|k: int| 0 <= k < x.len() implies poly_mul_q(x, y1, q)[k] == poly_mul_q(
        x,
        y2,
        q,
    )[k] by {
        lemma_conv_sum_congruent_right(x, y1, y2, q, k, x.len());
    }
    assert(poly_mul_q(x, y1, q) =~= poly_mul_q(x, y2, q));
}

/// Canonical form: the product in `R_q` distributes over sums of second
/// operands.
pub proof fn lemma_poly_mul_q_add_right(x: Seq<int>, y1: Seq<int>, y2: Seq<int>, q: int)
    requires
        q >= 1,
        y1.len() == x.len(),
        y2.len() == x.len(),
    ensures
        poly_mul_q(x, seq_add(y1, y2), q) == poly_add_q(
            poly_mul_q(x, y1, q),
            poly_mul_q(x, y2, q),
            q,
        ),
{
    assert forall|k: int| 0 <= k < x.len() implies poly_mul_q(x, seq_add(y1, y2), q)[k]
        == poly_add_q(poly_mul_q(x, y1, q), poly_mul_q(x, y2, q), q)[k] by {
        lemma_conv_sum_add_right(x, y1, y2, k, x.len());
        lemma_add_mod_noop(conv_coeff(x, y1, k), conv_coeff(x, y2, k), q);
    }
    assert(poly_mul_q(x, seq_add(y1, y2), q) =~= poly_add_q(
        poly_mul_q(x, y1, q),
        poly_mul_q(x, y2, q),
        q,
    ));
}

/// Canonical form: the product in `R_q` distributes over sums of first
/// operands, also when those were already reduced.
pub proof fn lemma_poly_mul_q_add_left(x1: Seq<int>, x2: Seq<int>, y: Seq<int>, q: int)
    requires
        q >= 1,
        x1.len() == x2.len(),
        y.len() == x1.len(),
    ensures
        poly_mul_q(poly_add_q(x1, x2, q), y, q) == poly_add_q(
            poly_mul_q(x1, y, q),
            poly_mul_q(x2, y, q),
            q,
        ),
{
    let xs = seq_add(x1, x2);
    assert forall|j: int| 0 <= j < x1.len() implies #[trigger] poly_add_q(x1, x2, q)[j] % q
        == xs[j] % q by {
        lemma_mod_twice(x1[j] + x2[j], q);
    }
    assert forall|k: int| 0 <= k < x1.len() implies poly_mul_q(poly_add_q(x1, x2, q), y, q)[k]
        == poly_add_q(poly_mul_q(x1, y, q), poly_mul_q(x2, y, q), q)[k] by {
        lemma_conv_sum_congruent_left(poly_add_q(x1, x2, q), xs, y, q, k, x1.len());
        lemma_conv_sum_add_left(x1, x2, y, k, x1.len());
        lemma_add_mod_noop(conv_coeff(x1, y, k), conv_coeff(x2, y, k), q);
    }
    assert(poly_mul_q(poly_add_q(x1, x2, q), y, q) =~= poly_add_q(
        poly_mul_q(x1, y, q),
        poly_mul_q(x2, y, q),
        q,
    ));
}

/// Canonical form: scaling the first operand scales the product in `R_q`.
pub proof fn lemma_poly_mul_q_scale_left(x: Seq<int>, y: Seq<int>, c: int, q: int)
    requires
        q >= 1,
        y.len() == x.len(),
    ensures
        poly_mul_q(poly_scale_q(x, c, q), y, q) == poly_scale_q(poly_mul_q(x, y, q), c, q),
{
    let xs = seq_scale(x, c);
    assert forall|j: int| 0 <= j < x.len() implies #[trigger] poly_scale_q(x, c, q)[j] % q
        == xs[j] % q by {
        lemma_mod_twice(c * x[j], q);
    }
    assert forall|k: int| 0 <= k < x.len() implies poly_mul_q(poly_scale_q(x, c, q), y, q)[k]
        == poly_scale_q(poly_mul_q(x, y, q), c, q)[k] by {
        lemma_conv_sum_congruent_left(poly_scale_q(x, c, q), xs, y, q, k, x.len());
        lemma_conv_sum_scale_left(x, y, c, k, x.len());
        lemma_mul_mod_noop_right(c, conv_coeff(x, y, k), q);
    }
    assert(poly_mul_q(poly_scale_q(x, c, q), y, q) =~= poly_scale_q(poly_mul_q(x, y, q), c, q));
}

/// Every convolution term against the zero polynomial vanishes.
pub proof fn lemma_conv_sum_zero_right(a: Seq<int>, k: int, m: nat)
    requires
        0 <= k < a.len(),
        m <= a.len(),
    ensures
        conv_sum(a, zero_poly(a.len()), k, m) == 0,
    decreases m,
{
    if m > 0 {
        lemma_conv_sum_zero_right(a, k, (m - 1) as nat);
        let i = m - 1;
        let z = zero_poly(a.len());
        let j = if i <= k {
            k - i
        } else {
            k - i + a.len() as int
        };
        assert(z[j] == 0);
        lemma_mul_by_zero_is_zero(a[i]);
    }
}

/// Multiplying by the zero polynomial gives the zero polynomial.
pub proof fn lemma_poly_mul_q_zero(x: Seq<int>, q: int)
    requires
        q >= 1,
    ensures
        poly_mul_q(x, zero_poly(x.len()), q) == zero_poly(x.len()),
{
    assert forall|k: int| 0 <= k < x.len() implies poly_mul_q(x, zero_poly(x.len()), q)[k]
        == 0 by {
        lemma_conv_sum_zero_right(x, k, x.len());
        lemma_small_mod(0nat, q as nat);
    }
    assert(poly_mul_q(x, zero_poly(x.len()), q) =~= zero_poly(x.len()));
}

/// Ring addition commutes: `a + b == b + a` in `R_q`.
pub proof fn lemma_poly_add_q_commutes(a: Seq<int>, b: Seq<int>, q: int)
    requires
        a.len() == b.len(),
    ensures
        poly_add_q(a, b, q) == poly_add_q(b, a, q),
{
    assert(poly_add_q(a, b, q) =~= poly_add_q(b, a, q));
}

/// Ring addition associates: `(a + b) + c == a + (b + c)` in `R_q`.
pub proof fn lemma_poly_add_q_associates(a: Seq<int>, b: Seq<int>, c: Seq<int>, q: int)
    requires
        q >= 1,
        a.len() == b.len(),
        b.len() == c.len(),
    ensures
        poly_add_q(poly_add_q(a, b, q), c, q) == poly_add_q(a, poly_add_q(b, c, q), q),
{
    assert forall|i: int| 0 <= i < a.len() implies poly_add_q(poly_add_q(a, b, q), c, q)[i]
        == poly_add_q(a, poly_add_q(b, c, q), q)[i] by {
        lemma_add_mod_noop_right(c[i], a[i] + b[i], q);
        lemma_add_mod_noop_right(a[i], b[i] + c[i], q);
    }
    assert(poly_add_q(poly_add_q(a, b, q), c, q) =~= poly_add_q(a, poly_add_q(b, c, q), q));
}

/// The negacyclic identity: multiplying `x^(n-1)` by `x` wraps to
/// `-1`, canonically `q - 1` at index zero and zero elsewhere.
pub proof fn lemma_negacyclic_identity(n: nat, q: int)
    requires
        n >= 2,
        q >= 2,
    ensures
        poly_mul_q(unit_poly(n, n - 1), unit_poly(n, 1), q) == Seq::new(
            n,
            |k: int| if k == 0 { q - 1 } else { 0int },
        ),
{
    let a = unit_poly(n, n - 1);
    let b = unit_poly(n, 1);
    assert forall|k: int| 0 <= k < n implies poly_mul_q(a, b, q)[k] == (if k == 0 {
        q - 1
    } else {
        0int
    }) by {
        lemma_conv_sum_unit_tail(a, b, k, n);
        if k == 0 {
            assert(conv_coeff(a, b, k) == -1);
            lemma_fundamental_div_mod_converse_mod(-1, q, -1, q - 1);
        } else {
            assert(conv_coeff(a, b, k) == 0);
            lemma_small_mod(0nat, q as nat);
        }
    }
    assert(poly_mul_q(a, b, q) =~= Seq::new(n, |k: int| if k == 0 { q - 1 } else { 0int }));
}

/// In the product `x^(n-1) * x`, only the last convolution term is ever
/// non-zero, and it contributes `-1` exactly at output index zero.
proof fn lemma_conv_sum_unit_tail(a: Seq<int>, b: Seq<int>, k: int, m: nat)
    requires
        a.len() >= 2,
        b.len() == a.len(),
        a == unit_poly(a.len(), a.len() - 1),
        b == unit_poly(a.len(), 1),
        0 <= k < a.len(),
        m <= a.len(),
    ensures
        conv_sum(a, b, k, m) == if m == a.len() && k == 0 {
            -1int
        } else {
            0int
        },
    decreases m,
{
    if m > 0 {
        lemma_conv_sum_unit_tail(a, b, k, (m - 1) as nat);
        let i = m - 1;
        let n = a.len() as int;
        if i < n - 1 {
            assert(a[i] == 0);
            assert(conv_term(a, b, k, i) == 0);
        } else {
            assert(i == n - 1);
            assert(a[i] == 1);
            if k == 0 {
                assert(i > k);
                assert(k - i + a.len() == 1);
                assert(b[1] == 1);
                assert(conv_term(a, b, k, i) == -(a[i] * b[1]));
                assert(a[i] * b[1] == 1) by (nonlinear_arith)
                    requires
                        a[i] == 1,
                        b[1] == 1,
                ;
                assert(conv_term(a, b, k, i) == -1);
            } else if k == n - 1 {
                assert(i <= k);
                assert(b[0] == 0);
                assert(conv_term(a, b, k, i) == a[i] * b[0]);
                assert(a[i] * b[0] == 0) by (nonlinear_arith)
                    requires
                        b[0] == 0,
                ;
                assert(conv_term(a, b, k, i) == 0);
            } else {
                assert(i > k);
                assert(b[k + 1] == 0);
                assert(conv_term(a, b, k, i) == -(a[i] * b[k + 1]));
                assert(a[i] * b[k + 1] == 0) by (nonlinear_arith)
                    requires
                        b[k + 1] == 0,
                ;
                assert(conv_term(a, b, k, i) == 0);
            }
        }
    }
}

} // verus!
