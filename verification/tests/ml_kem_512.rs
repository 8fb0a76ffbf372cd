use fips203::Error;
use fips203::ml_kem_512::{CipherText, CT_LEN, DecapsKey, DK_LEN, EK_LEN, EncapsKey, KG};
use fips203::traits::{Decaps, DummyRng, Encaps, KeyGen, RandomSource, RngError, SerDes};
use rand_core::{RngCore, SeedableRng};
use sha3::Shake256;
use sha3::digest::{ExtendableOutput, Update, XofReader};

const K: usize = 2;

struct ChaCha512(rand_chacha::ChaCha8Rng);

impl RandomSource for ChaCha512 {
    fn fill_bytes(&mut self, out: &mut [u8]) -> Result<(), RngError> {
        self.0.try_fill_bytes(out).map_err(|_| RngError)
    }
}

struct Broken512;

impl RandomSource for Broken512 {
    fn fill_bytes(&mut self, _out: &mut [u8]) -> Result<(), RngError> {
        Err(RngError)
    }
}

#[test]
fn smoke_test_512() {
    let mut rng = ChaCha512(rand_chacha::ChaCha8Rng::seed_from_u64(123));
    for _i in 0..10 {
        let (ek, dk) = KG::try_keygen_with_rng(&mut rng).unwrap();
        let (ssk1, ct) = ek.try_encaps_with_rng(&mut rng).unwrap();
        let ssk2 = dk.try_decaps(&ct).unwrap();
        assert!(KG::validate_keypair_with_rng_vartime(
            &mut rng,
            &ek.clone().into_bytes(),
            &dk.clone().into_bytes()
        ));
        assert!(ssk1 == ssk2);
        assert_eq!(ssk1.into_bytes(), ssk2.into_bytes());
        assert_eq!(
            ek.clone().into_bytes(),
            EncapsKey::try_from_bytes(ek.into_bytes()).unwrap().into_bytes()
        );
        assert_eq!(
            dk.clone().into_bytes(),
            DecapsKey::try_from_bytes(dk.into_bytes()).unwrap().into_bytes()
        );
    }
}

#[test]
fn lengths_512() {
    assert_eq!(EK_LEN, 384 * K + 32);
    assert_eq!(DK_LEN, 768 * K + 96);
    assert_eq!((EK_LEN, DK_LEN, CT_LEN), (800, 1632, 768));
}

#[test]
fn from_seed_is_repeatable_and_correct_512() {
    let mut seeds = rand_chacha::ChaCha8Rng::seed_from_u64(2);
    for _ in 0..5 {
        let (mut d, mut z, mut m) = ([0u8; 32], [0u8; 32], [0u8; 32]);
        seeds.fill_bytes(&mut d);
        seeds.fill_bytes(&mut z);
        seeds.fill_bytes(&mut m);
        let (ek, dk) = KG::keygen_from_seed(d, z).unwrap();
        let (ek2, dk2) = KG::keygen_from_seed(d, z).unwrap();
        assert_eq!(ek.clone().into_bytes(), ek2.into_bytes());
        assert_eq!(dk.clone().into_bytes(), dk2.into_bytes());
        let (k1, c) = ek.encaps_from_seed(&m);
        let (k1b, cb) = ek.encaps_from_seed(&m);
        assert_eq!(c.clone().into_bytes(), cb.into_bytes());
        assert!(k1 == k1b);
        let k2 = dk.try_decaps(&c).unwrap();
        assert!(k1 == k2);

        // with the seed as the only draw, the random entry gives the same
        let (k3, c3) = ek.try_encaps_with_rng(&mut DummyRng { data: m }).unwrap();
        assert_eq!(c3.into_bytes(), c.clone().into_bytes());
        assert!(k3 == k1);

        // a ciphertext that was not made for the key gives J(z, c')
        let mut bad = c.into_bytes();
        bad[CT_LEN / 2] ^= 0x80;
        let k4 = dk.try_decaps(&CipherText::try_from_bytes(bad).unwrap()).unwrap();
        let mut hasher = Shake256::default();
        hasher.update(&z);
        hasher.update(&bad);
        let mut k_bar = [0u8; 32];
        hasher.finalize_xof().read(&mut k_bar);
        assert_eq!(k4.into_bytes(), k_bar);
        assert!(k_bar != k1.into_bytes());
    }
}

#[test]
fn serdes_round_trip_512() {
    let (ek, dk) = KG::keygen_from_seed([1u8; 32], [2u8; 32]).unwrap();
    let (k, c) = ek.encaps_from_seed(&[3u8; 32]);
    let ek_bytes = ek.into_bytes();
    let dk_bytes = dk.into_bytes();
    let c_bytes = c.into_bytes();
    let k_bytes = k.into_bytes();
    assert_eq!(EncapsKey::try_from_bytes(ek_bytes).unwrap().into_bytes(), ek_bytes);
    assert_eq!(DecapsKey::try_from_bytes(dk_bytes).unwrap().into_bytes(), dk_bytes);
    assert_eq!(CipherText::try_from_bytes(c_bytes).unwrap().into_bytes(), c_bytes);
    assert_eq!(
        fips203::SharedSecretKey::try_from_bytes(k_bytes).unwrap().into_bytes(),
        k_bytes
    );
    assert_eq!(ek_bytes.len(), EK_LEN);
    assert_eq!(&dk_bytes[384 * K..768 * K + 32], &ek_bytes[..]);
}

#[test]
fn encaps_key_with_a_coefficient_from_q_on_is_refused_512() {
    let (ek, _dk) = KG::keygen_from_seed([4u8; 32], [5u8; 32]).unwrap();
    let good = ek.into_bytes();
    for place in [0usize, 1, 255, 256 * K - 1] {
        for value in [3329u16, 3330, 4095] {
            let mut bad = good;
            // coefficient `place` occupies 12 bits from bit 12 * place on
            let byte = place * 3 / 2;
            if place % 2 == 0 {
                bad[byte] = (value & 0xFF) as u8;
                bad[byte + 1] = (bad[byte + 1] & 0xF0) | (value >> 8) as u8;
            } else {
                bad[byte] = (bad[byte] & 0x0F) | ((value & 0x0F) << 4) as u8;
                bad[byte + 1] = (value >> 4) as u8;
            }
            assert!(matches!(EncapsKey::try_from_bytes(bad), Err(Error::InvalidEncoding)));
        }
    }
    assert!(matches!(EncapsKey::try_from_bytes([0xFFu8; EK_LEN]), Err(Error::InvalidEncoding)));
    assert!(EncapsKey::try_from_bytes([0u8; EK_LEN]).is_ok());
}

#[test]
fn decaps_key_is_checked_512() {
    let (_ek, dk) = KG::keygen_from_seed([6u8; 32], [7u8; 32]).unwrap();
    let good = dk.into_bytes();
    // the digest of the encapsulation key
    let mut bad_hash = good;
    bad_hash[768 * K + 32] ^= 1;
    assert!(matches!(DecapsKey::try_from_bytes(bad_hash), Err(Error::InvalidEncoding)));
    // the seed of the encapsulation key, which changes the digest
    let mut bad_rho = good;
    bad_rho[768 * K + 31] ^= 1;
    assert!(matches!(DecapsKey::try_from_bytes(bad_rho), Err(Error::InvalidEncoding)));
    // a coefficient of the encapsulation key
    let mut bad_t = good;
    bad_t[384 * K] = 0xFF;
    bad_t[384 * K + 1] = 0xFF;
    assert!(matches!(DecapsKey::try_from_bytes(bad_t), Err(Error::InvalidEncoding)));
    // the secret vector and z are not checked when the key is read
    let mut other_z = good;
    other_z[DK_LEN - 1] ^= 1;
    assert!(DecapsKey::try_from_bytes(other_z).is_ok());
    let mut bad_s = good;
    bad_s[0] = 0xFF;
    bad_s[1] = 0xFF;
    let key = DecapsKey::try_from_bytes(bad_s).unwrap();
    // but decapsulation refuses a secret vector that is not canonical
    let ct = CipherText::try_from_bytes([0u8; CT_LEN]).unwrap();
    assert!(matches!(key.try_decaps(&ct), Err(Error::InvalidEncoding)));
}

#[test]
fn validate_keypair_512() {
    let mut rng = ChaCha512(rand_chacha::ChaCha8Rng::seed_from_u64(77));
    let (ek, dk) = KG::keygen_from_seed([8u8; 32], [9u8; 32]).unwrap();
    let ek_bytes = ek.into_bytes();
    let dk_bytes = dk.into_bytes();
    assert!(KG::validate_keypair_with_rng_vartime(&mut rng, &ek_bytes, &dk_bytes));
    // any change of the copy of the encapsulation key in dk
    for place in [384 * K, 384 * K + 17, 768 * K + 31] {
        let mut bad = dk_bytes;
        bad[place] ^= 0x04;
        assert!(!KG::validate_keypair_with_rng_vartime(&mut rng, &ek_bytes, &bad));
    }
    // any change of the digest in dk
    for place in [768 * K + 32, 768 * K + 63] {
        let mut bad = dk_bytes;
        bad[place] ^= 0x04;
        assert!(!KG::validate_keypair_with_rng_vartime(&mut rng, &ek_bytes, &bad));
    }
    // a changed secret vector is found by the trial encapsulation
    let mut bad_s = dk_bytes;
    bad_s[5] ^= 0x01;
    assert!(!KG::validate_keypair_with_rng_vartime(&mut rng, &ek_bytes, &bad_s));
    // keys of two pairs
    let (ek2, _) = KG::keygen_from_seed([10u8; 32], [11u8; 32]).unwrap();
    assert!(!KG::validate_keypair_with_rng_vartime(&mut rng, &ek2.into_bytes(), &dk_bytes));
    // a source that fails
    assert!(!KG::validate_keypair_with_rng_vartime(&mut Broken512, &ek_bytes, &dk_bytes));
}

#[test]
fn rng_failure_512() {
    assert!(matches!(KG::try_keygen_with_rng(&mut Broken512), Err(Error::RngFailure)));
    let (ek, _dk) = KG::keygen_from_seed([0u8; 32], [0u8; 32]).unwrap();
    assert!(matches!(ek.try_encaps_with_rng(&mut Broken512), Err(Error::RngFailure)));
}

#[test]
fn validate_keypair_from_seed_512() {
    let (ek, dk) = KG::keygen_from_seed([8u8; 32], [9u8; 32]).unwrap();
    let ek_bytes = ek.into_bytes();
    let dk_bytes = dk.into_bytes();
    let seed = [0x3Cu8; 32];
    assert!(KG::validate_keypair_from_seed_vartime(&seed, &ek_bytes, &dk_bytes));
    // the answer with a source that gives the same message is the same
    let mut same = DummyRng { data: seed };
    assert!(KG::validate_keypair_with_rng_vartime(&mut same, &ek_bytes, &dk_bytes));
    // keys that do not fit together
    let mut bad_copy = dk_bytes;
    bad_copy[384 * K + 3] ^= 0x01;
    assert!(!KG::validate_keypair_from_seed_vartime(&seed, &ek_bytes, &bad_copy));
    let mut bad_hash = dk_bytes;
    bad_hash[768 * K + 40] ^= 0x01;
    assert!(!KG::validate_keypair_from_seed_vartime(&seed, &ek_bytes, &bad_hash));
    let mut bad_ek = ek_bytes;
    bad_ek[0] = 0xFF;
    bad_ek[1] = 0xFF;
    let mut both = dk_bytes;
    both[384 * K..768 * K + 32].copy_from_slice(&bad_ek);
    assert!(!KG::validate_keypair_from_seed_vartime(&seed, &bad_ek, &both));
    // keys that fit together, with a secret vector of another pair
    let (_, other) = KG::keygen_from_seed([10u8; 32], [11u8; 32]).unwrap();
    let mut mixed = dk_bytes;
    mixed[0..384 * K].copy_from_slice(&other.into_bytes()[0..384 * K]);
    assert!(!KG::validate_keypair_from_seed_vartime(&seed, &ek_bytes, &mixed));
    // keys that fit together, with a secret vector that is not canonical
    let mut loose = dk_bytes;
    loose[0] = 0xFF;
    loose[1] = 0xFF;
    assert!(!KG::validate_keypair_from_seed_vartime(&seed, &ek_bytes, &loose));
}

#[test]
fn validation_draws_nothing_for_keys_that_do_not_fit_512() {
    let (ek, dk) = KG::keygen_from_seed([8u8; 32], [9u8; 32]).unwrap();
    let ek_bytes = ek.into_bytes();
    let mut dk_bytes = dk.into_bytes();
    let mut rng = fips203::traits::TestRng::new();
    rng.push(&[5u8; 32]);
    dk_bytes[768 * K + 32] ^= 0x80;
    assert!(!KG::validate_keypair_with_rng_vartime(&mut rng, &ek_bytes, &dk_bytes));
    // the message is still there
    let mut out = [0u8; 32];
    assert!(rng.fill_bytes(&mut out).is_ok());
    assert_eq!(out, [5u8; 32]);
    // and it is taken where the keys fit together
    dk_bytes[768 * K + 32] ^= 0x80;
    rng.push(&[5u8; 32]);
    assert!(KG::validate_keypair_with_rng_vartime(&mut rng, &ek_bytes, &dk_bytes));
    assert!(rng.fill_bytes(&mut out).is_err());
}
