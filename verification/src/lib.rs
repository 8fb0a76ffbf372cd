//! Module-lattice key encapsulation (ML-KEM, FIPS 203) with machine-checked
//! contracts.
//!
//! Every executable function carries a contract over a mathematical model of
//! the scheme: coefficients are integers modulo `Q`, polynomials are sequences
//! of 256 such integers, and keys and ciphertexts are byte sequences.
//!
//! # Use
//!
//! Each of the modules `ml_kem_512`, `ml_kem_768` and `ml_kem_1024` holds one
//! parameter set: its lengths, its key and ciphertext types and its key
//! generation `KG`. The traits in `traits` are the interface.
//!
//! 1. The owner makes a key pair with `KG::try_keygen_with_rng` or
//!    `KG::keygen_from_seed`, and sends the bytes of the encapsulation key.
//! 2. The other party reads them with `EncapsKey::try_from_bytes`, makes a
//!    shared secret and a ciphertext with `try_encaps_with_rng`, and sends
//!    the bytes of the ciphertext.
//! 3. The owner reads them with `CipherText::try_from_bytes` and gets the
//!    same shared secret from `try_decaps`.
//!
//! # Layers
//!
//! * `types`: the field of coefficients and the containers of keys.
//! * `radix`, `byte_fns`: coefficients to bytes and back.
//! * `ntt`, `ntt_laws`, `ntt_meaning`, `ntt_product`: the transform, with
//!   the proofs that its inverse undoes it, that it is evaluation at powers
//!   of `ZETA`, and that it turns the product of the ring into the product
//!   of pairs.
//! * `sampling`, `helpers`: samplers, hashes, compression, vectors.
//! * `k_pke`: the encryption scheme underneath.
//! * `ml_kem`, `keys`: the key encapsulation on bytes and on typed keys.
//! * `ring`, `correctness`: the laws of the arithmetic of transformed
//!   polynomials, and the proof that decapsulation gives the encapsulated
//!   secret wherever the noise of the encryption is small.
//! * `constant_time`: comparison, selection and wiping of secret bytes.
//!
//! # What is assumed
//!
//! The hash functions, the comparison and selection without branches and the
//! wiping of memory are those of the crates sha3, subtle and zeroize. Their
//! results carry names or short statements in the contracts; what they
//! compute is not proved here.
use crate::constant_time::{ct_eq, wipe};
use crate::traits::SerDes;
use vstd::prelude::*;

pub mod byte_fns;
pub mod constant_time;
pub mod correctness;
pub mod helpers;
pub mod k_pke;
pub mod keys;
pub mod ml_kem;
pub mod ml_kem_1024;
pub mod ml_kem_512;
pub mod ml_kem_768;
pub mod ntt;
pub mod ntt_laws;
pub mod ntt_meaning;
pub mod ntt_product;
pub mod radix;
pub mod ring;
pub mod sampling;
pub mod traits;
pub mod types;

verus! {

/// The prime modulus of the coefficient field.
pub const Q: u16 = 3329;

/// A primitive 256-th root of unity modulo `Q`.
pub const ZETA: u16 = 17;

/// Length in bytes of the shared secret of every parameter set.
pub const SSK_LEN: usize = 32;

/// Why an operation did not produce its result.
#[derive(Clone, Copy, Debug, PartialEq, Eq, Structural)]
pub enum Error {
    /// The random source failed.
    RngFailure,
    /// A byte string holds a coefficient that is not below `Q`, or a
    /// decapsulation key holds a digest that is not the one of its
    /// encapsulation key.
    InvalidEncoding,
    /// A stream of the matrix expansion held fewer than 256 acceptable
    /// coefficients within the bytes that are drawn from it.
    SamplingExhausted,
}

/// The secret of 32 bytes that both parties end with.
///
/// Its bytes are set to zero when it is dropped, and two secrets are
/// compared without a branch on their bytes.
#[derive(Debug)]
pub struct SharedSecretKey(pub(crate) [u8; SSK_LEN]);

impl Clone for SharedSecretKey {
    fn clone(&self) -> (r: Self)
        ensures
            r@ == self@,
    {
        SharedSecretKey(self.0)
    }
}

impl View for SharedSecretKey {
    type V = Seq<u8>;

    closed spec fn view(&self) -> Seq<u8> {
        self.0@
    }
}

impl SharedSecretKey {
    /// The secret that holds `bytes`.
    pub(crate) fn new(bytes: [u8; SSK_LEN]) -> (r: Self)
        ensures
            r@ == bytes@,
    {
        SharedSecretKey(bytes)
    }
}

impl SerDes for SharedSecretKey {
    type ByteArray = [u8; SSK_LEN];

    /// The 32 bytes of the secret.
    fn into_bytes(self) -> (r: [u8; SSK_LEN])
        ensures
            r@ == self@,
    {
        self.0
    }

    /// The secret that holds `ssk`: every 32 bytes are a secret.
    fn try_from_bytes(ssk: [u8; SSK_LEN]) -> (r: Result<Self, Error>)
        ensures
            r is Ok,
            r->Ok_0@ == ssk@,
    {
        Ok(SharedSecretKey(ssk))
    }
}

impl PartialEq for SharedSecretKey {
    fn eq(&self, other: &Self) -> (r: bool) {
        ct_eq(self.0.as_slice(), other.0.as_slice())
    }
}

impl vstd::std_specs::cmp::PartialEqSpecImpl for SharedSecretKey {
    open spec fn obeys_eq_spec() -> bool {
        true
    }

    open spec fn eq_spec(&self, other: &Self) -> bool {
        self@ == other@
    }
}

impl Drop for SharedSecretKey {
    fn drop(&mut self)
        opens_invariants none
        no_unwind
    {
        wipe(&mut self.0);
    }
}

} // verus!
