use fips203::Error;
use fips203::ml_kem::{
    ml_kem_decaps, ml_kem_decaps_internal, ml_kem_encaps, ml_kem_encaps_internal, ml_kem_key_gen,
    ml_kem_key_gen_internal,
};
use fips203::traits::{DummyRng, RandomSource, RngError, SerDes, TestRng};
use rand_core::{RngCore, SeedableRng};
use sha3::{Digest, Sha3_256, Shake256};
use sha3::digest::{ExtendableOutput, Update, XofReader};

/// Test constants for ML-KEM-512
const ETA1: u32 = 3;
const ETA2: u32 = 2;
const DU: u32 = 10;
const DV: u32 = 4;
const K: usize = 2;
const ETA1_64: usize = ETA1 as usize * 64;
const ETA2_64: usize = ETA2 as usize * 64;
/// Size of encapsulation key in bytes
const EK_LEN: usize = 800;
/// Size of decapsulation key in bytes
const DK_LEN: usize = 1632;
/// Size of ciphertext in bytes
const CT_LEN: usize = 768;
/// Size of input to function J (z || c)
const J_LEN: usize = 32 + 32 * (DU as usize * K + DV as usize);

struct ChaCha(rand_chacha::ChaCha8Rng);

impl RandomSource for ChaCha {
    fn fill_bytes(&mut self, out: &mut [u8]) -> Result<(), RngError> {
        self.0.try_fill_bytes(out).map_err(|_| RngError)
    }
}

struct Broken;

impl RandomSource for Broken {
    fn fill_bytes(&mut self, _out: &mut [u8]) -> Result<(), RngError> {
        Err(RngError)
    }
}

/// Tests that the key generation, encapsulation, and decapsulation functions
/// complete successfully with valid inputs.
#[test]
#[allow(clippy::similar_names)]
fn ml_kem_test_result_errs() {
    let mut rng = ChaCha(rand_chacha::ChaCha8Rng::seed_from_u64(123));
    let mut ek = [0u8; EK_LEN];
    let mut dk = [0u8; DK_LEN];
    let mut ct = [0u8; CT_LEN];

    let res = ml_kem_key_gen::<K, ETA1_64>(&mut rng, &mut ek, &mut dk);
    assert!(res.is_ok());

    let res = ml_kem_encaps::<K, ETA1_64, ETA2_64>(&mut rng, DU, DV, &ek, &mut ct);
    assert!(res.is_ok());

    let res = ml_kem_decaps::<K, ETA1_64, ETA2_64, J_LEN, CT_LEN>(DU, DV, &dk, &ct);
    assert!(res.is_ok());
}

#[test]
fn decapsulation_key_layout() {
    let d = [1u8; 32];
    let z = [2u8; 32];
    let mut ek = [0u8; EK_LEN];
    let mut dk = [0u8; DK_LEN];
    ml_kem_key_gen_internal::<K, ETA1_64>(d, z, &mut ek, &mut dk).unwrap();
    // dk = dk_pke || ek || H(ek) || z
    assert_eq!(&dk[384 * K..768 * K + 32], &ek[..]);
    let digest = Sha3_256::digest(ek);
    assert_eq!(&dk[768 * K + 32..768 * K + 64], &digest[..]);
    assert_eq!(&dk[768 * K + 64..], &z[..]);
}

#[test]
fn encaps_and_decaps_agree_and_tampering_is_rejected_implicitly() {
    let mut seeds = rand_chacha::ChaCha8Rng::seed_from_u64(31);
    for _ in 0..5 {
        let mut d = [0u8; 32];
        let mut z = [0u8; 32];
        let mut m = [0u8; 32];
        seeds.fill_bytes(&mut d);
        seeds.fill_bytes(&mut z);
        seeds.fill_bytes(&mut m);
        let mut ek = [0u8; EK_LEN];
        let mut dk = [0u8; DK_LEN];
        let mut ct = [0u8; CT_LEN];
        ml_kem_key_gen_internal::<K, ETA1_64>(d, z, &mut ek, &mut dk).unwrap();
        let k1 = ml_kem_encaps_internal::<K, ETA1_64, ETA2_64>(DU, DV, &m, &ek, &mut ct)
            .unwrap()
            .into_bytes();
        let k2 = ml_kem_decaps_internal::<K, ETA1_64, ETA2_64, J_LEN, CT_LEN>(DU, DV, &dk, &ct)
            .unwrap()
            .into_bytes();
        assert_eq!(k1, k2);

        // a changed ciphertext gives J(z, c') and not the encapsulated secret
        for place in [0usize, 100, CT_LEN - 1] {
            let mut bad = ct;
            bad[place] ^= 0x01;
            let k3 = ml_kem_decaps::<K, ETA1_64, ETA2_64, J_LEN, CT_LEN>(DU, DV, &dk, &bad)
                .unwrap()
                .into_bytes();
            let mut hasher = Shake256::default();
            hasher.update(&z);
            hasher.update(&bad);
            let mut k_bar = [0u8; 32];
            hasher.finalize_xof().read(&mut k_bar);
            assert_eq!(k3, k_bar);
            assert_ne!(k3, k1);
        }
    }
}

#[test]
fn key_gen_draws_d_and_then_z() {
    let d = [5u8; 32];
    let z = [6u8; 32];
    let mut rng = TestRng::new();
    rng.push(&z);
    rng.push(&d);
    let (mut ek1, mut dk1) = ([0u8; EK_LEN], [0u8; DK_LEN]);
    ml_kem_key_gen::<K, ETA1_64>(&mut rng, &mut ek1, &mut dk1).unwrap();
    let (mut ek2, mut dk2) = ([0u8; EK_LEN], [0u8; DK_LEN]);
    ml_kem_key_gen_internal::<K, ETA1_64>(d, z, &mut ek2, &mut dk2).unwrap();
    assert_eq!(ek1, ek2);
    assert_eq!(dk1, dk2);
}

#[test]
fn encaps_draws_the_message() {
    let mut ek = [0u8; EK_LEN];
    let mut dk = [0u8; DK_LEN];
    ml_kem_key_gen_internal::<K, ETA1_64>([8u8; 32], [9u8; 32], &mut ek, &mut dk).unwrap();
    let m = [0x42u8; 32];
    let mut rng = DummyRng { data: m };
    let mut ct1 = [0u8; CT_LEN];
    let k1 = ml_kem_encaps::<K, ETA1_64, ETA2_64>(&mut rng, DU, DV, &ek, &mut ct1).unwrap();
    let mut ct2 = [0u8; CT_LEN];
    let k2 = ml_kem_encaps_internal::<K, ETA1_64, ETA2_64>(DU, DV, &m, &ek, &mut ct2).unwrap();
    assert_eq!(ct1, ct2);
    assert!(k1 == k2);
}

#[test]
fn a_failing_source_gives_rng_failure_and_writes_nothing() {
    let mut ek = [0x11u8; EK_LEN];
    let mut dk = [0x22u8; DK_LEN];
    let res = ml_kem_key_gen::<K, ETA1_64>(&mut Broken, &mut ek, &mut dk);
    assert_eq!(res, Err(Error::RngFailure));
    assert_eq!(ek, [0x11u8; EK_LEN]);
    assert_eq!(dk, [0x22u8; DK_LEN]);

    // the second draw fails
    let mut once = TestRng::new();
    once.push(&[1u8; 32]);
    let res = ml_kem_key_gen::<K, ETA1_64>(&mut once, &mut ek, &mut dk);
    assert_eq!(res, Err(Error::RngFailure));

    let mut good_ek = [0u8; EK_LEN];
    let mut good_dk = [0u8; DK_LEN];
    ml_kem_key_gen_internal::<K, ETA1_64>([1u8; 32], [2u8; 32], &mut good_ek, &mut good_dk)
        .unwrap();
    let mut ct = [0x33u8; CT_LEN];
    let res = ml_kem_encaps::<K, ETA1_64, ETA2_64>(&mut Broken, DU, DV, &good_ek, &mut ct);
    assert!(matches!(res, Err(Error::RngFailure)));
    assert_eq!(ct, [0x33u8; CT_LEN]);
}

#[test]
fn encaps_with_bad_key_is_invalid_encoding() {
    let ek = [0xFFu8; EK_LEN];
    let mut ct = [0u8; CT_LEN];
    let res = ml_kem_encaps_internal::<K, ETA1_64, ETA2_64>(DU, DV, &[0u8; 32], &ek, &mut ct);
    assert!(matches!(res, Err(Error::InvalidEncoding)));
}

#[test]
fn decaps_with_bad_keys_is_invalid_encoding() {
    let mut ek = [0u8; EK_LEN];
    let mut dk = [0u8; DK_LEN];
    ml_kem_key_gen_internal::<K, ETA1_64>([1u8; 32], [2u8; 32], &mut ek, &mut dk).unwrap();
    let ct = [0u8; CT_LEN];
    // the secret vector is not canonical
    let mut bad_s = dk;
    bad_s[0] = 0xFF;
    bad_s[1] = 0xFF;
    let res = ml_kem_decaps::<K, ETA1_64, ETA2_64, J_LEN, CT_LEN>(DU, DV, &bad_s, &ct);
    assert!(matches!(res, Err(Error::InvalidEncoding)));
    // the encapsulation key inside is not canonical
    let mut bad_t = dk;
    bad_t[384 * K] = 0xFF;
    bad_t[384 * K + 1] = 0xFF;
    let res = ml_kem_decaps::<K, ETA1_64, ETA2_64, J_LEN, CT_LEN>(DU, DV, &bad_t, &ct);
    assert!(matches!(res, Err(Error::InvalidEncoding)));
}

#[test]
fn test_rng_gives_back_last_first_and_checks_lengths() {
    let mut rng = TestRng::new();
    let mut out = [0u8; 4];
    assert_eq!(rng.fill_bytes(&mut out), Err(RngError));
    rng.push(&[1, 2, 3, 4]);
    rng.push(&[5, 6, 7, 8]);
    rng.push(&[9, 9]);
    assert_eq!(rng.fill_bytes(&mut out), Err(RngError));
    assert_eq!(out, [0u8; 4]);
    assert_eq!(rng.fill_bytes(&mut out), Ok(()));
    assert_eq!(out, [5, 6, 7, 8]);
    assert_eq!(rng.fill_bytes(&mut out), Ok(()));
    assert_eq!(out, [1, 2, 3, 4]);
    assert_eq!(rng.fill_bytes(&mut out), Err(RngError));
}

#[test]
fn dummy_rng_repeats_its_bytes() {
    let mut rng = DummyRng { data: [7u8; 32] };
    let mut out = [0u8; 32];
    assert_eq!(rng.fill_bytes(&mut out), Ok(()));
    assert_eq!(out, [7u8; 32]);
    let mut short = [0u8; 16];
    assert_eq!(rng.fill_bytes(&mut short), Err(RngError));
    assert_eq!(short, [0u8; 16]);
}

#[test]
fn a_new_test_rng_holds_nothing() {
    let mut rng = TestRng::new();
    let mut out = [7u8; 32];
    assert_eq!(rng.fill_bytes(&mut out), Err(RngError));
    assert_eq!(out, [7u8; 32]);
}
