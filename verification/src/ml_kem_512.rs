//! The parameter set ML-KEM-512, claimed to be in security category 1.
//!
//! The owner of a key pair makes it with `KG`, sends the encapsulation key,
//! and calls `try_decaps` on the ciphertext that comes back; the other party
//! calls `try_encaps_with_rng` on the encapsulation key. Both end with the
//! same shared secret.
use crate::Error;
use crate::SharedSecretKey;
use crate::k_pke::{canonical, expands, key_gen_rho};
use crate::keys::{
    check_decaps_key, check_encaps_key, decaps, decaps_key_of_bytes, encaps_from_seed,
    encaps_key_of_bytes, encaps_with_rng, keygen_from_seed, keygen_with_rng, keypair_fits,
    keypair_validates, validate_keypair, validate_keypair_with_seed,
};
use crate::ml_kem::{
    dk_ek, ml_kem_decaps_spec, ml_kem_encaps_spec, ml_kem_key_gen_spec, valid_dk, valid_ek,
};
use crate::traits::{Decaps, Encaps, KeyGen, RandomSource, SerDes};
use vstd::prelude::*;

verus! {

/// The number of polynomials of a vector.
pub const K: usize = 2;

/// The parameter of the noise of the secret.
pub const ETA1: u32 = 3;

/// The parameter of the noise of a ciphertext.
pub const ETA2: u32 = 2;

/// The bits kept of each coefficient of the first part of a ciphertext.
pub const DU: u32 = 10;

/// The bits kept of each coefficient of the second part of a ciphertext.
pub const DV: u32 = 4;

/// The bytes drawn for one polynomial of the noise of the secret.
pub const ETA1_64: usize = 192;

/// The bytes drawn for one polynomial of the noise of a ciphertext.
pub const ETA2_64: usize = 128;

/// The length in bytes of an encapsulation key.
pub const EK_LEN: usize = 800;

/// The length in bytes of a decapsulation key.
pub const DK_LEN: usize = 1632;

/// The length in bytes of a ciphertext.
pub const CT_LEN: usize = 768;

/// The length in bytes of the input of `J`: 32 bytes and a ciphertext.
pub const J_LEN: usize = 800;

/// An encapsulation key of this parameter set.
pub type EncapsKey = crate::types::EncapsKey<EK_LEN>;

/// A decapsulation key of this parameter set.
pub type DecapsKey = crate::types::DecapsKey<DK_LEN>;

/// A ciphertext of this parameter set.
pub type CipherText = crate::types::CipherText<CT_LEN>;

/// The key generation of this parameter set.
pub struct KG();

impl KeyGen for KG {
    type DecapsByteArray = [u8; DK_LEN];

    type DecapsKey = DecapsKey;

    type EncapsByteArray = [u8; EK_LEN];

    type EncapsKey = EncapsKey;

    /// The key pair of two seeds `d` and `z` drawn from `rng`, in this
    /// order. It fails where a draw fails or the matrix of `d` cannot be
    /// sampled.
    fn try_keygen_with_rng(rng: &mut impl RandomSource) -> (r: Result<
        (EncapsKey, DecapsKey),
        Error,
    >)
        ensures
            match r {
                Ok((ek, dk)) => {
                    &&& dk_ek(2, dk@) == ek@
                    &&& canonical(2, dk@.subrange(0, 768))
                    &&& exists|d: Seq<u8>, z: Seq<u8>|
                        {
                            &&& d.len() == 32
                            &&& z.len() == 32
                            &&& expands(key_gen_rho(2, d), 2)
                            &&& (ek@, dk@) == #[trigger] ml_kem_key_gen_spec(2, 3, d, z)
                        }
                },
                Err(e) => e == Error::RngFailure || e == Error::SamplingExhausted,
            },
    {
        keygen_with_rng::<K, ETA1_64, EK_LEN, DK_LEN>(rng)
    }

    /// The key pair of the seeds `d` and `z`. It fails where the matrix of
    /// `d` cannot be sampled.
    fn keygen_from_seed(d: [u8; 32], z: [u8; 32]) -> (r: Result<(EncapsKey, DecapsKey), Error>)
        ensures
            match r {
                Ok((ek, dk)) => {
                    &&& expands(key_gen_rho(2, d@), 2)
                    &&& ek@ == ml_kem_key_gen_spec(2, 3, d@, z@).0
                    &&& dk@ == ml_kem_key_gen_spec(2, 3, d@, z@).1
                    &&& dk_ek(2, dk@) == ek@
                    &&& canonical(2, dk@.subrange(0, 768))
                },
                Err(e) => e == Error::SamplingExhausted && !expands(key_gen_rho(2, d@), 2),
            },
    {
        keygen_from_seed::<K, ETA1_64, EK_LEN, DK_LEN>(d, z)
    }

    /// Whether `ek` and `dk` are the two keys of one pair, as far as one
    /// encapsulation with a message drawn from `rng` and its decapsulation
    /// show. Nothing is drawn where the keys do not fit together; the answer
    /// is `false` where the draw fails.
    fn validate_keypair_with_rng_vartime(
        rng: &mut impl RandomSource,
        ek: &[u8; EK_LEN],
        dk: &[u8; DK_LEN],
    ) -> (r: bool)
        ensures
            !keypair_fits(2, ek@, dk@) ==> !r,
            r ==> exists|m: Seq<u8>|
                {
                    &&& m.len() == 32
                    &&& #[trigger] keypair_validates(2, 3, 2, 10, 4, ek@, dk@, m)
                },
    {
        validate_keypair::<K, ETA1_64, ETA2_64, J_LEN, EK_LEN, DK_LEN, CT_LEN>(
            DU,
            DV,
            rng,
            ek,
            dk,
        )
    }
}

impl KG {
    /// Whether `ek` and `dk` are the two keys of one pair, as far as the
    /// encapsulation with the message `seed` and its decapsulation show:
    /// `dk` holds `ek` and the digest of `ek`, both are valid keys, and the
    /// two operations give the same shared secret. Its running time depends
    /// on the keys.
    pub fn validate_keypair_from_seed_vartime(
        seed: &[u8; 32],
        ek: &[u8; EK_LEN],
        dk: &[u8; DK_LEN],
    ) -> (r: bool)
        ensures
            r == keypair_validates(2, 3, 2, 10, 4, ek@, dk@, seed@),
    {
        validate_keypair_with_seed::<K, ETA1_64, ETA2_64, J_LEN, EK_LEN, DK_LEN, CT_LEN>(
            DU,
            DV,
            seed,
            ek,
            dk,
        )
    }
}

impl Encaps for EncapsKey {
    type CipherText = CipherText;

    type SharedSecretKey = SharedSecretKey;

    /// The shared secret and the ciphertext of a message drawn from `rng`.
    /// It fails only where the draw fails.
    fn try_encaps_with_rng(&self, rng: &mut impl RandomSource) -> (r: Result<
        (SharedSecretKey, CipherText),
        Error,
    >)
        ensures
            match r {
                Ok((ssk, ct)) => exists|m: Seq<u8>|
                    {
                        &&& m.len() == 32
                        &&& (ssk@, ct@) == #[trigger] ml_kem_encaps_spec(
                            2,
                            3,
                            2,
                            10,
                            4,
                            self@,
                            m,
                        )
                    },
                Err(e) => e == Error::RngFailure,
            },
    {
        encaps_with_rng::<K, ETA1_64, ETA2_64, EK_LEN, CT_LEN>(DU, DV, self, rng)
    }

    /// The shared secret and the ciphertext of the message `seed`.
    fn encaps_from_seed(&self, seed: &[u8; 32]) -> (r: (SharedSecretKey, CipherText))
        ensures
            (r.0@, r.1@) == ml_kem_encaps_spec(2, 3, 2, 10, 4, self@, seed@),
    {
        encaps_from_seed::<K, ETA1_64, ETA2_64, EK_LEN, CT_LEN>(DU, DV, self, seed)
    }
}

impl Decaps for DecapsKey {
    type CipherText = CipherText;

    type SharedSecretKey = SharedSecretKey;

    /// The shared secret of `ct`: the one that was encapsulated where `ct`
    /// was made for this key, and one that depends on the key and `ct` alone
    /// where it was not. It fails only where the secret vector of the key is
    /// not canonical, which no generated key is.
    fn try_decaps(&self, ct: &CipherText) -> (r: Result<SharedSecretKey, Error>)
        ensures
            match r {
                Ok(ssk) => {
                    &&& canonical(2, self@.subrange(0, 768))
                    &&& ssk@ == ml_kem_decaps_spec(2, 3, 2, 10, 4, self@, ct@)
                },
                Err(e) => e == Error::InvalidEncoding && !canonical(
                    2,
                    self@.subrange(0, 768),
                ),
            },
    {
        decaps::<K, ETA1_64, ETA2_64, J_LEN, CT_LEN, DK_LEN>(DU, DV, self, ct)
    }
}

impl SerDes for EncapsKey {
    type ByteArray = [u8; EK_LEN];

    /// The bytes of the key, which are valid.
    fn into_bytes(self) -> (r: [u8; EK_LEN])
        ensures
            r@ == self@,
            valid_ek(2, r@),
    {
        *self.as_bytes()
    }

    /// The key that `ek` holds. The bytes are refused with
    /// `InvalidEncoding` where a coefficient is not below `Q`, and with
    /// `SamplingExhausted` where the matrix of the seed cannot be sampled.
    fn try_from_bytes(ek: [u8; EK_LEN]) -> (r: Result<Self, Error>)
        ensures
            r is Ok <==> valid_ek(2, ek@),
            match r {
                Ok(key) => encaps_key_of_bytes(2, ek@) == Ok::<Seq<u8>, Error>(key@),
                Err(e) => encaps_key_of_bytes(2, ek@) == Err::<Seq<u8>, Error>(e),
            },
    {
        match check_encaps_key::<K>(ek.as_slice()) {
            Ok(()) => Ok(EncapsKey::new(ek)),
            Err(e) => Err(e),
        }
    }
}

impl SerDes for DecapsKey {
    type ByteArray = [u8; DK_LEN];

    /// The bytes of the key, which are valid.
    fn into_bytes(self) -> (r: [u8; DK_LEN])
        ensures
            r@ == self@,
            valid_dk(2, r@),
    {
        *self.as_bytes()
    }

    /// The key that `dk` holds. The bytes are refused with
    /// `InvalidEncoding` where the encapsulation key in them holds a
    /// coefficient that is not below `Q` or the digest in them is not the
    /// digest of that key, and with `SamplingExhausted` where the matrix of
    /// the seed cannot be sampled.
    fn try_from_bytes(dk: [u8; DK_LEN]) -> (r: Result<Self, Error>)
        ensures
            r is Ok <==> valid_dk(2, dk@),
            match r {
                Ok(key) => decaps_key_of_bytes(2, dk@) == Ok::<Seq<u8>, Error>(key@),
                Err(e) => decaps_key_of_bytes(2, dk@) == Err::<Seq<u8>, Error>(e),
            },
    {
        match check_decaps_key::<K>(dk.as_slice()) {
            Ok(()) => Ok(DecapsKey::new(dk)),
            Err(e) => Err(e),
        }
    }
}

impl SerDes for CipherText {
    type ByteArray = [u8; CT_LEN];

    /// The bytes of the ciphertext.
    fn into_bytes(self) -> (r: [u8; CT_LEN])
        ensures
            r@ == self@,
    {
        *self.as_bytes()
    }

    /// The ciphertext that `ct` holds: every byte string of this length is
    /// one.
    fn try_from_bytes(ct: [u8; CT_LEN]) -> (r: Result<Self, Error>)
        ensures
            r is Ok,
            r->Ok_0@ == ct@,
    {
        Ok(CipherText::new(ct))
    }
}

} // verus!
