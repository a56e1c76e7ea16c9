use hpre::fhe::FHEParams;
use hpre::glwe::{GLWECiphertext, GLWECrypto, GLWESecretKey};
use hpre::codec::decode_base_p;
use rand::rngs::StdRng;
use rand::SeedableRng;
use rand_distr::{Distribution, Normal};

fn gaussian_vec(rng: &mut StdRng, sigma: f64, n: usize) -> Vec<i64> {
    let normal = Normal::new(0.0, sigma).unwrap();
    (0..n).map(|_| normal.sample(rng).round() as i64).collect()
}

fn gaussian_layers(rng: &mut StdRng, sigma: f64, count: usize, n: usize) -> Vec<Vec<i64>> {
    (0..count).map(|_| gaussian_vec(rng, sigma, n)).collect()
}

fn zero_layers(count: usize, n: usize) -> Vec<Vec<i64>> {
    (0..count).map(|_| vec![0i64; n]).collect()
}

fn rem_euclid_256(x: i64) -> i64 {
    ((x % 256) + 256) % 256
}

#[test]
fn encrypt_decrypt_round_trip() {
    let mut params = FHEParams::new_rlwe(4096, 4, 32);
    params.set_standard_diviation(1000);
    let crypto = GLWECrypto::new(params);
    let mut rng = StdRng::seed_from_u64(7);
    // The byte 'h' has a base-4 digit that centres to -2, which scales to
    // exactly -q/2: a small positive body error keeps it on the right side
    // of the centring boundary, as the noise of a real draw usually does.
    let key_noise = vec![0i64; 32];
    let (sk, pk) = crypto.gen_keypair(&mut rng, &key_noise);
    let mut body_noise = vec![0i64; 32];
    body_noise[0] = 1;
    let noise = vec![body_noise, vec![0i64; 32]];
    let ct = crypto.encrypt(&mut rng, &pk, b"he".to_vec(), &noise);
    let symbols = crypto.decrypt(&sk, ct);
    let decoded = decode_base_p(&symbols, 4).unwrap();
    assert_eq!(&decoded[..2], b"he");
}

#[test]
fn homomorphic_addition_of_two_ciphertexts() {
    let mut params = FHEParams::new_rlwe(1048576, 256, 32);
    params.set_standard_diviation(1000);
    params.set_complexity(8);
    let crypto = GLWECrypto::new(params);
    let mut rng = StdRng::seed_from_u64(11);
    let key_noise = gaussian_vec(&mut rng, 1.0, 32);
    let (sk, pk) = crypto.gen_keypair(&mut rng, &key_noise);
    let n1 = gaussian_layers(&mut rng, 1.0, 9, 32);
    let n2 = gaussian_layers(&mut rng, 1.0, 9, 32);
    let c1 = crypto.encrypt(&mut rng, &pk, vec![0x20, 0x20], &n1);
    let c2 = crypto.encrypt(&mut rng, &pk, vec![0x20, 0x20], &n2);
    let sum = crypto.add_ciphertexts(&c1, &c2);
    let symbols = crypto.decrypt(&sk, sum);
    assert_eq!(symbols[0], 0x40);
    assert_eq!(symbols[1], 0x40);
    for i in 2..32 {
        assert_eq!(symbols[i], 0, "coefficient {} should be empty", i);
    }
}

#[test]
fn homomorphic_scaling_by_two() {
    let mut params = FHEParams::new_rlwe(1048576, 256, 32);
    params.set_standard_diviation(1000);
    params.set_complexity(8);
    let crypto = GLWECrypto::new(params);
    let mut rng = StdRng::seed_from_u64(13);
    let key_noise = gaussian_vec(&mut rng, 1.0, 32);
    let (sk, pk) = crypto.gen_keypair(&mut rng, &key_noise);
    let noise = gaussian_layers(&mut rng, 1.0, 9, 32);
    let mut ct = crypto.encrypt(&mut rng, &pk, vec![0x20, 0x20], &noise);
    crypto.scale_ciphertext(&mut ct, 2);
    let symbols = crypto.decrypt(&sk, ct);
    assert_eq!(symbols[0], 0x40);
    assert_eq!(symbols[1], 0x40);
    for i in 2..32 {
        assert_eq!(symbols[i], 0, "coefficient {} should be empty", i);
    }
}

#[test]
fn plaintext_multiplication_matches_convolution() {
    // Noise-free draws keep the check on the arithmetic itself exact.
    let mut params = FHEParams::new_rlwe(16777216, 256, 32);
    params.set_standard_diviation(1000);
    params.set_complexity(8);
    let crypto = GLWECrypto::new(params);
    let mut rng = StdRng::seed_from_u64(17);
    let key_noise = vec![0i64; 32];
    let (sk, pk) = crypto.gen_keypair(&mut rng, &key_noise);
    let noise = zero_layers(9, 32);
    let ct = crypto.encrypt(&mut rng, &pk, vec![2, 2, 2], &noise);
    let lifted = crypto.lift_plain_poly_to_q(&vec![1050, 1050, 1050, 1050, 1050]);
    let ct2 = crypto.multyply_by_plaintext(&ct, &lifted);
    let symbols = crypto.decrypt(&sk, ct2);
    // Negacyclic convolution of [2,2,2] with [1050; 5], modulo 256.
    let mut expected = vec![0i64; 32];
    for i in 0..3 {
        for j in 0..5 {
            expected[i + j] += 2 * 1050;
        }
    }
    for i in 0..32 {
        assert_eq!(rem_euclid_256(symbols[i]), rem_euclid_256(expected[i]), "coefficient {}", i);
    }
}

#[test]
fn decomposed_multiplication_equals_naive() {
    let mut params = FHEParams::new_rlwe(1048576, 256, 8);
    params.set_standard_diviation(1000);
    params.set_complexity(2);
    let crypto = GLWECrypto::new(params);
    let mut rng = StdRng::seed_from_u64(19);
    let key_noise = gaussian_vec(&mut rng, 1.0, 8);
    let (_sk, pk) = crypto.gen_keypair(&mut rng, &key_noise);
    let noise = gaussian_layers(&mut rng, 1.0, 3, 8);
    let ct = crypto.encrypt(&mut rng, &pk, vec![3, 1, 4], &noise);
    let m_poly = vec![1050i64, -7, 0, 255, 19];
    let lifted = crypto.lift_plain_poly_to_q(&m_poly);
    let naive = crypto.multyply_by_plaintext(&ct, &lifted);
    for (base, balanced) in [(2i64, true), (2, false), (4, true), (7, false), (16, true)] {
        let dec = crypto.multiply_decomposed(&ct, &m_poly, base, balanced);
        assert_eq!(dec.b, naive.b, "body differs for base {} balanced {}", base, balanced);
        assert_eq!(dec.d, naive.d, "mask differs for base {} balanced {}", base, balanced);
    }
}

#[test]
fn secret_key_packs_to_bytes() {
    let sk = GLWESecretKey { s: vec![vec![1, 0, 1, 1, 0, 0, 1, 0, 1, 1, 1, 1, 0, 0, 0, 0]] };
    assert_eq!(sk.to_bytes(), vec![0xB2, 0xF0]);
}

#[test]
fn secret_key_packing_pads_low_bits() {
    // Three leftover bits land in the byte's top positions.
    let sk = GLWESecretKey { s: vec![vec![1, 0, 1, 1, 0, 0, 1, 0, 1, 0, 1]] };
    assert_eq!(sk.to_bytes(), vec![0xB2, 0xA0]);
    // Two polynomials pack one after the other.
    let sk = GLWESecretKey { s: vec![vec![1, 1, 1, 1, 1, 1, 1, 1], vec![0, 0, 0, 0, 0, 0, 0, 1]] };
    assert_eq!(sk.to_bytes(), vec![0xFF, 0x01]);
}

#[test]
fn uniform_sampling_respects_bounds() {
    let mut rng = StdRng::seed_from_u64(23);
    // A one-point interval pins the value: this fails if the sampler did
    // not draw from the requested range.
    let v = hpre::sampling::fhe_sampling_uniform(&mut rng, 5, 6, 64);
    assert_eq!(v, vec![5i64; 64]);
    let v = hpre::sampling::fhe_sampling_uniform(&mut rng, -3, 3, 512);
    assert!(v.iter().all(|x| -3 <= *x && *x < 3));
    assert!(v.iter().any(|x| *x != v[0]));
    let v = hpre::sampling::fhe_sample(
        &mut rng,
        hpre::sampling::FHESamplingMethod::UniformTernary,
        512,
    );
    assert!(v.iter().all(|x| -1 <= *x && *x <= 1));
}

#[test]
fn lift_canonicalises_and_pads() {
    let params = FHEParams::new_rlwe(97, 2, 4);
    let crypto = GLWECrypto::new(params);
    assert_eq!(crypto.lift_plain_poly_to_q(&vec![-1, 98]), vec![96, 1, 0, 0]);
}

#[test]
fn ciphertext_dimensions_follow_parameters() {
    let mut params = FHEParams::new_lwe(4096, 256, 3);
    params.set_standard_diviation(1000);
    let crypto = GLWECrypto::new(params);
    let mut rng = StdRng::seed_from_u64(29);
    let key_noise = vec![0i64];
    let (sk, pk) = crypto.gen_keypair(&mut rng, &key_noise);
    assert_eq!(sk.s.len(), 3);
    assert_eq!(pk.a.len(), 3);
    assert_eq!(pk.b.len(), 1);
    let noise = zero_layers(4, 1);
    let ct: GLWECiphertext = crypto.encrypt(&mut rng, &pk, vec![1], &noise);
    assert_eq!(ct.d.len(), 3);
    assert_eq!(ct.b.len(), 1);
    let symbols = crypto.decrypt(&sk, ct);
    assert_eq!(symbols, vec![1]);
}
