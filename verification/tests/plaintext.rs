use hpre::codec::{decode_base_p, encode_base_p, FheError};
use hpre::utils::{center_to_signed, div_round_signed, ensure_len, mod_q_i64, poly_add, poly_mul};
use hpre::fhe::FHEParams;

#[test]
fn plaintext_encoding() {
    let data = vec![200u8, 123, 255];
    let p = 5i64;
    let encoded = encode_base_p(&data, p);
    let decoded = decode_base_p(&encoded, p).unwrap();
    assert_eq!(data, decoded);

    let data = "Hello world!\n";
    let p = 8i64;
    let encoded = encode_base_p(data.as_bytes(), p);
    let decoded = decode_base_p(&encoded, p).unwrap();
    assert_eq!(data.as_bytes(), decoded);

    let data = "Encodable message!\n";
    let p = 512i64;
    let encoded = encode_base_p(data.as_bytes(), p);
    let decoded = decode_base_p(&encoded, p).unwrap();
    assert_eq!(data.as_bytes(), decoded);
}

#[test]
fn codec_round_trip_every_small_base() {
    let data: Vec<u8> = vec![0, 1, 2, 127, 128, 200, 254, 255];
    for p in [2i64, 3, 5, 8, 16, 256, 512] {
        let encoded = encode_base_p(&data, p);
        let decoded = decode_base_p(&encoded, p).unwrap();
        assert_eq!(data, decoded, "round trip failed for p = {}", p);
    }
}

#[test]
fn codec_exact_digits_base_four() {
    // 104 in base 4 is 0 + 2*4 + 2*16 + 1*64, each digit centred by 2.
    let encoded = encode_base_p(&[104u8], 4);
    assert_eq!(encoded, vec![-2, 0, 0, -1]);
    // Base 2 digits are not centred.
    let encoded = encode_base_p(&[5u8], 2);
    assert_eq!(encoded, vec![1, 0, 1, 0, 0, 0, 0, 0]);
    // Above 255 a byte is carried as one coefficient.
    let encoded = encode_base_p(&[200u8, 3], 300);
    assert_eq!(encoded, vec![200, 3]);
}

#[test]
fn decode_rejects_ragged_stream() {
    // Base 16 packs two digits per byte; three digits is no whole chunk.
    let r = decode_base_p(&[1i64, 2, 3], 16);
    assert_eq!(r, Err(FheError::InvalidEncoding));
    // A whole number of chunks decodes: digits are un-centred by 8, so
    // the stream [1, 2] stands for (1 + 8) + (2 + 8) * 16 = 169.
    let r = decode_base_p(&[1i64, 2], 16);
    assert_eq!(r, Ok(vec![169u8]));
}

#[test]
fn mod_q_canonicalises_negatives() {
    assert_eq!(mod_q_i64(-1, 17), 16);
    assert_eq!(mod_q_i64(-34, 17), 0);
    assert_eq!(mod_q_i64(35, 17), 1);
    assert_eq!(mod_q_i64(0, 17), 0);
}

#[test]
fn centring_splits_at_half() {
    assert_eq!(center_to_signed(5, 10), 5);
    assert_eq!(center_to_signed(6, 10), -4);
    assert_eq!(center_to_signed(0, 10), 0);
    assert_eq!(center_to_signed(9, 10), -1);
}

#[test]
fn rounding_ties_away_from_zero() {
    assert_eq!(div_round_signed(5, 10), 1);
    assert_eq!(div_round_signed(4, 10), 0);
    assert_eq!(div_round_signed(-5, 10), -1);
    assert_eq!(div_round_signed(-4, 10), 0);
    assert_eq!(div_round_signed(25, 10), 3);
}

#[test]
fn ensure_len_pads_and_truncates() {
    let mut v = vec![1i64, 2, 3];
    ensure_len(&mut v, 5);
    assert_eq!(v, vec![1, 2, 3, 0, 0]);
    ensure_len(&mut v, 2);
    assert_eq!(v, vec![1, 2]);
}

#[test]
fn ring_addition_commutes_on_values() {
    let params = FHEParams::new_rlwe(97, 2, 4);
    let a = vec![90i64, 1, 2, 3];
    let b = vec![10i64, 96, 5, 0];
    let mut left = a.clone();
    poly_add(&params, &mut left, &b);
    let mut right = b.clone();
    poly_add(&params, &mut right, &a);
    assert_eq!(left, right);
    assert_eq!(left, vec![3, 0, 7, 3]);
}

#[test]
fn negacyclic_wrap_flips_sign() {
    // x^(n-1) * x == -1 in Z_q[x]/(x^n + 1): canonically q - 1 at index 0.
    let params = FHEParams::new_rlwe(97, 2, 4);
    let xn1 = vec![0i64, 0, 0, 1];
    let x1 = vec![0i64, 1];
    let prod = poly_mul(&params, &xn1, &x1);
    assert_eq!(prod, vec![96, 0, 0, 0]);
}

#[test]
fn schoolbook_product_small_example() {
    // (1 + 2x) * (3 + x) = 3 + 7x + 2x^2 over Z_97 with n = 4.
    let params = FHEParams::new_rlwe(97, 2, 4);
    let a = vec![1i64, 2];
    let b = vec![3i64, 1];
    assert_eq!(poly_mul(&params, &a, &b), vec![3, 7, 2, 0]);
}
