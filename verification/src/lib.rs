//! A small GLWE-based homomorphic encryption core: a negacyclic polynomial
//! ring over a finite modulus, key generation, encryption, decryption,
//! homomorphic addition, scalar and plaintext-polynomial multiplication,
//! and a base-p codec that packs byte strings into plaintext polynomials.

pub mod fhe;
pub mod ring;
pub mod utils;
pub mod codec;
pub mod sampling;
pub mod glwe;
pub mod laws;
