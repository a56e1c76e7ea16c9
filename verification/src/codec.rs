//! The base-p plaintext codec: packs a byte string into a stream of
//! small digits that fit the plaintext slot of the scheme, and unpacks
//! it again.
//!
//! For `p > 255` a byte is carried as a single coefficient. Otherwise each
//! byte becomes a fixed number `d` of base-`p` digits, least significant
//! first, where `d` is the least exponent with `p^d > 255`; for `p > 2`
//! every digit is centred by subtracting `p / 2`.

use vstd::prelude::*;
use vstd::arithmetic::div_mod::{
    lemma_fundamental_div_mod, lemma_fundamental_div_mod_converse_div,
    lemma_fundamental_div_mod_converse_mod, lemma_div_denominator, lemma_div_basics_2,
    lemma_multiply_divide_lt, lemma_small_mod, lemma_mod_multiples_basic,
};
use vstd::arithmetic::mul::{
    lemma_mul_is_commutative, lemma_mul_inequality, lemma_mul_is_distributive_add_other_way,
};
use vstd::arithmetic::power::{pow, lemma_pow_increases, lemma_pow_positive};
use crate::ring::ints_of;
use crate::utils::mod_q_i64;

verus! {

/// The failures the codec reports.
#[derive(Debug, Clone, Copy, PartialEq, Eq, Structural)]
pub enum FheError {
    /// The digit stream handed to the decoder is not a whole number of
    /// per-byte chunks.
    InvalidEncoding,
}

/// The centring offset: digits of a base-`p` encoding are shifted down by
/// `p / 2` when `p > 2`, and kept in `[0, p)` when `p == 2`.
pub open spec fn digit_offset(p: int) -> int {
    if p > 2 {
        p / 2
    } else {
        0
    }
}

/// The fixed number of base-`p` digits that encode one byte: the least
/// `d` with `p^d > 255`, spelled out by range since `2 <= p <= 255`.
pub open spec fn digits_per_byte_spec(p: int) -> nat {
    if p >= 16 {
        2
    } else if p >= 7 {
        3
    } else if p >= 4 {
        4
    } else if p == 3 {
        6
    } else {
        8
    }
}

/// `digits_per_byte_spec` is the least exponent whose power exceeds any
/// byte value.
pub proof fn lemma_digits_per_byte_bounds(p: int)
    requires
        2 <= p <= 255,
    ensures
        1 <= digits_per_byte_spec(p) <= 8,
        pow(p, digits_per_byte_spec(p)) > 255,
        pow(p, (digits_per_byte_spec(p) - 1) as nat) <= 255,
{
    reveal_with_fuel(pow, 9);
    assert(pow(p, 1) == p * 1);
    assert(pow(p, 2) == p * (p * 1));
    assert(pow(p, 3) == p * (p * (p * 1)));
    assert(pow(p, 4) == p * (p * (p * (p * 1))));
    if p >= 16 {
        assert(p * (p * 1) > 255 && p * 1 <= 255) by (nonlinear_arith)
            requires
                16 <= p <= 255,
        ;
    } else if p >= 7 {
        assert(p * (p * (p * 1)) > 255 && p * (p * 1) <= 255) by (nonlinear_arith)
            requires
                7 <= p <= 15,
        ;
    } else if p >= 4 {
        assert(p * (p * (p * (p * 1))) > 255 && p * (p * (p * 1)) <= 255) by (nonlinear_arith)
            requires
                4 <= p <= 6,
        ;
    } else if p == 3 {
        assert(pow(3, 6) > 255 && pow(3, 5) <= 255);
    } else {
        assert(pow(2, 8) > 255 && pow(2, 7) <= 255);
    }
}

/// Digit `i` of the encoding of byte value `b`, after centring.
pub open spec fn enc_digit(b: int, p: int, i: nat) -> int {
    (b / pow(p, i)) % p - digit_offset(p)
}

/// The digit chunk that encodes the byte value `b` in base `p`.
pub open spec fn byte_digits(b: int, p: int, m: nat) -> Seq<int> {
    Seq::new(m, |i: int| enc_digit(b, p, i as nat))
}

/// The whole encoded stream for a byte string: one coefficient per byte
/// above 255, otherwise the per-byte chunks laid out one after another.
pub open spec fn spec_encode(data: Seq<u8>, p: int) -> Seq<int> {
    if p > 255 {
        data.map_values(|b: u8| b as int)
    } else {
        let d = digits_per_byte_spec(p) as int;
        Seq::new(data.len() * digits_per_byte_spec(p), |j: int| enc_digit(data[j / d] as int, p, (j % d) as nat))
    }
}

/// The value a digit chunk stands for: un-centre each digit and recombine
/// with increasing powers of `p`, least significant digit first.
pub open spec fn chunk_value(s: Seq<int>, p: int, off: int) -> int
    decreases s.len(),
{
    if s.len() == 0 {
        0
    } else {
        (s[0] + off) + p * chunk_value(s.drop_first(), p, off)
    }
}

/// Whether a digit stream can be decoded at all.
pub open spec fn decode_valid(enc: Seq<int>, p: int) -> bool {
    p > 255 || enc.len() as int % (digits_per_byte_spec(p) as int) == 0
}

/// The byte values a digit stream decodes to: each chunk is recombined
/// and masked to its low 8 bits.
pub open spec fn spec_decode(enc: Seq<int>, p: int) -> Seq<int> {
    if p > 255 {
        enc.map_values(|v: int| v % 256)
    } else {
        let d = digits_per_byte_spec(p) as int;
        Seq::new(
            (enc.len() as int / d) as nat,
            |c: int| chunk_value(enc.subrange(c * d, c * d + d), p, digit_offset(p)) % 256,
        )
    }
}

/// View of a byte string as a sequence of unbounded integers.
pub open spec fn bytes_of(s: Seq<u8>) -> Seq<int> {
    s.map_values(|b: u8| b as int)
}

/// The fixed digit count for bytes in base `p`.
fn digits_per_byte(p: i64) -> (d: usize)
    requires
        2 <= p <= 255,
    ensures
        d == digits_per_byte_spec(p as int),
{
    if p >= 16 {
        2
    } else if p >= 7 {
        3
    } else if p >= 4 {
        4
    } else if p == 3 {
        6
    } else {
        8
    }
}

/// Encodes each byte of `data` into base-`p` digits, least significant
/// first; for `p > 255` a byte is carried as one coefficient unchanged.
#[verifier::loop_isolation(false)]
pub fn encode_base_p(data: &[u8], p: i64) -> (res: Vec<i64>)
    requires
        2 <= p,
        data@.len() * 8 <= usize::MAX,
    ensures
        ints_of(res@) == spec_encode(data@, p as int),
{
    let mut res: Vec<i64> = Vec::new();
    if p > 255 {
        let mut c: usize = 0;
        while c < data.len()
            invariant
                c <= data@.len(),
                res@.len() == c,
                forall|j: int| 0 <= j < c ==> #[trigger] res@[j] as int == data@[j] as int,
            decreases data@.len() - c,
        {
            res.push(data[c] as i64);
            c += 1;
        }
        proof {
            assert(ints_of(res@) =~= spec_encode(data@, p as int));
        }
        return res;
    }
    let d = digits_per_byte(p);
    let ghost enc = spec_encode(data@, p as int);
    let ghost len = data@.len() as int;
    let ghost di = d as int;
    proof {
        assert(enc.len() == len * di);
    }
    let mut c: usize = 0;
    while c < data.len()
        invariant
            c <= data@.len(),
            c * di <= len * di,
            res@.len() == c * di,
            forall|j: int| 0 <= j < c * di ==> #[trigger] res@[j] as int == enc[j],
        decreases data@.len() - c,
    {
        let b: u8 = data[c];
        let mut rem: i64 = b as i64;
        proof {
            reveal(pow);
            lemma_mul_inequality(c as int + 1, len, di);
            lemma_mul_is_distributive_add_other_way(di, c as int, 1);
            assert(pow(p as int, 0) == 1);
            lemma_div_basics_2(b as int);
        }
        let mut i: usize = 0;
        while i < d
            invariant
                i <= d,
                0 <= rem <= 255,
                rem as int == b as int / pow(p as int, i as nat),
                c * di + di <= len * di,
                res@.len() == c * di + i,
                forall|j: int| 0 <= j < c * di + i ==> #[trigger] res@[j] as int == enc[j],
            decreases d - i,
        {
            let mut val: i64 = rem % p;
            if p > 2 {
                val = val - p / 2;
            }
            res.push(val);
            proof {
                let pi = p as int;
                let bi = b as int;
                let j = c as int * di + i;
                // The pushed digit is the one the model assigns to stream
                // index `j`: chunk `c`, position `i`.
                lemma_fundamental_div_mod_converse_div(j, di, c as int, i as int);
                lemma_fundamental_div_mod_converse_mod(j, di, c as int, i as int);
                assert(enc[j] == enc_digit(bi, pi, i as nat));
                assert(res@[j] as int == enc[j]);
                // Stepping the remainder moves to the next power of `p`.
                reveal(pow);
                lemma_pow_positive(pi, i as nat);
                lemma_div_denominator(bi, pow(pi, i as nat), pi);
                lemma_mul_is_commutative(pow(pi, i as nat), pi);
                assert(pow(pi, (i + 1) as nat) == pi * pow(pi, i as nat));
                lemma_div_basics_2(rem as int);
            }
            rem = rem / p;
            i += 1;
        }
        proof {
            lemma_mul_is_distributive_add_other_way(di, c as int, 1);
        }
        c += 1;
    }
    proof {
        assert(ints_of(res@) =~= enc);
    }
    res
}

/// Decodes a base-`p` digit stream back into bytes: each chunk of digits
/// is un-centred, recombined, and masked to its low 8 bits. Fails with
/// `InvalidEncoding` when the stream is not a whole number of chunks.
#[verifier::loop_isolation(false)]
pub fn decode_base_p(encoded: &[i64], p: i64) -> (res: Result<Vec<u8>, FheError>)
    requires
        2 <= p,
    ensures
        res is Ok <==> decode_valid(ints_of(encoded@), p as int),
        res matches Ok(v) ==> bytes_of(v@) == spec_decode(ints_of(encoded@), p as int),
        res is Err ==> res == Result::<Vec<u8>, FheError>::Err(FheError::InvalidEncoding),
{
    let ghost enc = ints_of(encoded@);
    let mut out: Vec<u8> = Vec::new();
    if p > 255 {
        let mut c: usize = 0;
        while c < encoded.len()
            invariant
                c <= enc.len(),
                out@.len() == c,
                forall|j: int| 0 <= j < c ==> #[trigger] out@[j] as int == enc[j] % 256,
            decreases enc.len() - c,
        {
            let v: i64 = encoded[c];
            let byte: i64 = mod_q_i64(v as i128, 256);
            out.push(byte as u8);
            c += 1;
        }
        proof {
            assert(bytes_of(out@) =~= spec_decode(enc, p as int));
        }
        return Ok(out);
    }
    let d = digits_per_byte(p);
    if encoded.len() % d != 0 {
        return Err(FheError::InvalidEncoding);
    }
    let count: usize = encoded.len() / d;
    let ghost off = digit_offset(p as int);
    let ghost di = d as int;
    proof {
        lemma_fundamental_div_mod(enc.len() as int, di);
        assert(enc.len() as int == count as int * di) by {
            lemma_mul_is_commutative(di, count as int);
        }
    }
    let mut c: usize = 0;
    while c < count
        invariant
            c <= count,
            out@.len() == c,
            forall|j: int| 0 <= j < c ==> #[trigger] out@[j] as int == spec_decode(enc, p as int)[j],
        decreases count - c,
    {
        proof {
            lemma_mul_inequality(c as int + 1, count as int, di);
            lemma_mul_is_distributive_add_other_way(di, c as int, 1);
            assert(c as int * di + di <= enc.len());
        }
        let mut value: i128 = 0;
        let mut t: usize = d;
        proof {
            assert(enc.subrange(c as int * di + di, c as int * di + di).len() == 0);
        }
        while t > 0
            invariant
                t <= d,
                c < count,
                c as int * di + di <= enc.len(),
                value == chunk_value(enc.subrange(c as int * di + t, c as int * di + di), p as int, off),
                -0x4000_0000_0000_0000_0000_0000_0000_0000 < value
                    < 0x4000_0000_0000_0000_0000_0000_0000_0000,
            decreases t,
        {
            t -= 1;
            let digit: i64 = encoded[c * d + t];
            proof {
                reveal(pow);
                let s = enc.subrange(c as int * di + t, c as int * di + di);
                assert(s.drop_first() =~= enc.subrange(c as int * di + t + 1, c as int * di + di));
                assert(s[0] == enc[c as int * di + t]);
                lemma_chunk_value_bound(s.drop_first(), p as int, off);
                lemma_digits_per_byte_bounds(p as int);
                lemma_pow_increases(p as nat, (d - t - 1) as nat, (d - 1) as nat);
                let k: int = 0x8000_0000_0000_0080;
                let pw = pow(p as int, (d - t - 1) as nat);
                // The recombined tail is small: the digit count keeps the
                // power of `p` at most 255 * 255.
                assert(k * (2 * pw - 1) <= k * (2 * 255 * 255)) by (nonlinear_arith)
                    requires
                        1 <= pw,
                        pw <= pow(p as int, (d - 1) as nat),
                        pow(p as int, (d - 1) as nat) <= 255,
                        k == 0x8000_0000_0000_0080,
                ;
                // So the Horner step stays far inside the 128-bit range.
                assert(-(k * (2 * 255 * 255) * 255) <= value * (p as int) <= k * (2 * 255 * 255)
                    * 255) by (nonlinear_arith)
                    requires
                        -(k * (2 * 255 * 255)) <= value <= k * (2 * 255 * 255),
                        2 <= p <= 255,
                        k == 0x8000_0000_0000_0080,
                ;
            }
            let lifted: i128 = if p > 2 {
                digit as i128 + (p / 2) as i128
            } else {
                digit as i128
            };
            let next: i128 = value * (p as i128) + lifted;
            proof {
                let s = enc.subrange(c as int * di + t, c as int * di + di);
                lemma_mul_is_commutative(p as int, value as int);
                assert(lifted as int == s[0] + off);
                assert(chunk_value(s, p as int, off) == (s[0] + off) + (p as int) * chunk_value(
                    s.drop_first(),
                    p as int,
                    off,
                ));
                assert(next as int == chunk_value(s, p as int, off));
            }
            value = next;
        }
        let byte: i64 = mod_q_i64(value, 256);
        out.push(byte as u8);
        proof {
            assert(out@[c as int] as int == spec_decode(enc, p as int)[c as int]) by {
                assert(enc.subrange(c as int * di + 0, c as int * di + di) =~= enc.subrange(
                    c as int * di,
                    c as int * di + di,
                ));
            }
        }
        c += 1;
    }
    proof {
        assert(bytes_of(out@) =~= spec_decode(enc, p as int));
    }
    Ok(out)
}

/// Appending a digit adds its value at the next power of the base.
pub proof fn lemma_chunk_value_push(s: Seq<int>, x: int, base: int, off: int)
    requires
        base >= 1,
    ensures
        chunk_value(s.push(x), base, off) == chunk_value(s, base, off) + (x + off) * pow(
            base,
            s.len(),
        ),
    decreases s.len(),
{
    reveal(pow);
    if s.len() == 0 {
        let sp = s.push(x);
        assert(sp[0] == x);
        assert(sp.drop_first() =~= Seq::<int>::empty());
        assert(chunk_value(sp.drop_first(), base, off) == 0);
        vstd::arithmetic::mul::lemma_mul_basics(base);
        vstd::arithmetic::mul::lemma_mul_basics(x + off);
        assert(chunk_value(sp, base, off) == (sp[0] + off) + base * chunk_value(
            sp.drop_first(),
            base,
            off,
        ));
        assert((x + off) * pow(base, 0nat) == (x + off) * 1);
    } else {
        let rest = s.drop_first();
        assert(s.push(x).drop_first() =~= rest.push(x));
        lemma_chunk_value_push(rest, x, base, off);
        assert(pow(base, s.len()) == base * pow(base, rest.len()));
        assert(base * (chunk_value(rest, base, off) + (x + off) * pow(base, rest.len()))
            == base * chunk_value(rest, base, off) + (x + off) * (base * pow(base, rest.len())))
            by (nonlinear_arith);
    }
}

/// A chunk of digits that each fit an `i64` recombines to a value far
/// inside the 128-bit range, because the digit count keeps `p^len` small.
proof fn lemma_chunk_value_bound(s: Seq<int>, p: int, off: int)
    requires
        2 <= p <= 255,
        0 <= off <= 127,
        forall|i: int| 0 <= i < s.len() ==> -0x8000_0000_0000_0000 <= #[trigger] s[i]
            < 0x8000_0000_0000_0000,
    ensures
        -(0x8000_0000_0000_0080 * (2 * pow(p, s.len()) - 1)) <= chunk_value(s, p, off) <= (
        0x8000_0000_0000_0080 * (2 * pow(p, s.len()) - 1)),
        pow(p, s.len()) >= 1,
    decreases s.len(),
{
    reveal(pow);
    let k: int = 0x8000_0000_0000_0080;
    if s.len() == 0 {
    } else {
        let rest = s.drop_first();
        lemma_chunk_value_bound(rest, p, off);
        let cv = chunk_value(rest, p, off);
        let bound = k * (2 * pow(p, rest.len()) - 1);
        assert(pow(p, s.len()) == p * pow(p, rest.len()));
        assert(-(k * (2 * (p * pow(p, rest.len())) - 1)) <= (s[0] + off) + p * cv <= k * (2 * (p
            * pow(p, rest.len())) - 1)) by (nonlinear_arith)
            requires
                2 <= p,
                -bound <= cv <= bound,
                bound == k * (2 * pow(p, rest.len()) - 1),
                pow(p, rest.len()) >= 1,
                k == 0x8000_0000_0000_0080,
                -0x8000_0000_0000_0000 <= s[0] < 0x8000_0000_0000_0000,
                0 <= off <= 127,
        ;
        assert(p * pow(p, rest.len()) >= 1) by (nonlinear_arith)
            requires
                p >= 2,
                pow(p, rest.len()) >= 1,
        ;
    }
}

/// The digits of a byte value recombine to that value: the base-`p`
/// reconstruction identity behind the round-trip law.
proof fn lemma_chunk_value_reconstructs(b: int, p: int, m: nat)
    requires
        p >= 2,
        0 <= b < pow(p, m),
    ensures
        chunk_value(byte_digits(b, p, m), p, digit_offset(p)) == b,
    decreases m,
{
    reveal(pow);
    let off = digit_offset(p);
    let s = byte_digits(b, p, m);
    if m == 0 {
        assert(pow(p, 0) == 1);
    } else {
        let rest = s.drop_first();
        assert forall|i: int| 0 <= i < m - 1 implies rest[i] == enc_digit(b / p, p, i as nat) by {
            reveal(pow);
            lemma_pow_positive(p, i as nat);
            lemma_div_denominator(b, p, pow(p, i as nat));
            assert(pow(p, (i + 1) as nat) == p * pow(p, i as nat));
        }
        assert(rest =~= byte_digits(b / p, p, (m - 1) as nat));
        assert(pow(p, m) == p * pow(p, (m - 1) as nat));
        assert(b / p < pow(p, (m - 1) as nat)) by {
            lemma_multiply_divide_lt(b, p, pow(p, (m - 1) as nat));
        }
        lemma_chunk_value_reconstructs(b / p, p, (m - 1) as nat);
        assert(s[0] == b % p - off) by {
            assert(pow(p, 0) == 1);
            lemma_div_basics_2(b);
        }
        lemma_fundamental_div_mod(b, p);
    }
}

/// Every byte string survives the round trip through the codec, for every
/// plaintext modulus `p >= 2`: the encoded stream is decodable and decodes
/// to the original bytes.
pub proof fn lemma_encode_decode_round_trip(data: Seq<u8>, p: int)
    requires
        p >= 2,
    ensures
        decode_valid(spec_encode(data, p), p),
        spec_decode(spec_encode(data, p), p) == bytes_of(data),
{
    let enc = spec_encode(data, p);
    if p > 255 {
        assert forall|j: int| 0 <= j < data.len() implies enc.map_values(|v: int| v % 256)[j]
            == data[j] as int by {
            lemma_small_mod(data[j] as nat, 256);
        }
        assert(spec_decode(enc, p) =~= bytes_of(data));
    } else {
        let d = digits_per_byte_spec(p) as int;
        let len = data.len() as int;
        lemma_digits_per_byte_bounds(p);
        lemma_mod_multiples_basic(len, d);
        assert(enc.len() as int == len * d);
        assert(len * d == d * len) by {
            lemma_mul_is_commutative(len, d);
        }
        assert(decode_valid(enc, p));
        assert(enc.len() as int / d == len) by {
            lemma_fundamental_div_mod_converse_div(enc.len() as int, d, len, 0);
        }
        assert forall|c: int| 0 <= c < data.len() implies spec_decode(enc, p)[c]
            == data[c] as int by {
            let b = data[c] as int;
            let chunk = enc.subrange(c * d, c * d + d);
            assert(c * d + d <= len * d) by {
                lemma_mul_inequality(c + 1, len, d);
                lemma_mul_is_distributive_add_other_way(d, c, 1);
            }
            assert forall|i: int| 0 <= i < d implies chunk[i] == enc_digit(b, p, i as nat) by {
                let j = c * d + i;
                lemma_fundamental_div_mod_converse_div(j, d, c, i);
                lemma_fundamental_div_mod_converse_mod(j, d, c, i);
            }
            assert(chunk =~= byte_digits(b, p, d as nat));
            lemma_chunk_value_reconstructs(b, p, d as nat);
            lemma_small_mod(data[c] as nat, 256);
        }
        assert(spec_decode(enc, p) =~= bytes_of(data));
    }
}

} // verus!
