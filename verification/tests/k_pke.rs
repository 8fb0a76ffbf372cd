use fips203::Error;
use fips203::k_pke::{gen_a_hat, k_pke_decrypt, k_pke_encrypt, k_pke_key_gen};
use rand_core::{RngCore, SeedableRng};

const ETA1: u32 = 3;
const ETA2: u32 = 2;
const DU: u32 = 10;
const DV: u32 = 4;
const K: usize = 2;
const ETA1_64: usize = ETA1 as usize * 64;
const ETA2_64: usize = ETA2 as usize * 64;
const EK_LEN: usize = 800;
const DK_LEN: usize = 1632;
const CT_LEN: usize = 768;

#[test]
#[allow(clippy::similar_names)]
fn k_pke_test_result_errs() {
    let mut rng = rand_chacha::ChaCha8Rng::seed_from_u64(123);
    let mut ek = [0u8; EK_LEN];
    let mut dk = [0u8; DK_LEN];
    let mut ct = [0u8; CT_LEN];
    let m = [0u8; 32];
    let r = [0u8; 32];

    let mut d = [0u8; 32];
    rng.try_fill_bytes(&mut d).unwrap();
    let res = k_pke_key_gen::<K, ETA1_64>(d, &mut ek, &mut dk[0..384 * K]);
    assert!(res.is_ok());

    let res = k_pke_encrypt::<K, ETA1_64, ETA2_64>(DU, DV, &ek, &m, &r, &mut ct);
    assert!(res.is_ok());

    let ff_ek = [0xFFu8; EK_LEN]; // oversized values
    let res = k_pke_encrypt::<K, ETA1_64, ETA2_64>(DU, DV, &ff_ek, &m, &r, &mut ct);
    assert!(res.is_err());

    let res = k_pke_decrypt::<K>(DU, DV, &dk[0..384 * K], &ct);
    assert!(res.is_ok());
}

#[test]
fn decrypt_recovers_the_message() {
    let mut rng = rand_chacha::ChaCha8Rng::seed_from_u64(2024);
    for _ in 0..10 {
        let mut ek = [0u8; EK_LEN];
        let mut dk = [0u8; 384 * K];
        let mut ct = [0u8; CT_LEN];
        let mut d = [0u8; 32];
        let mut m = [0u8; 32];
        let mut r = [0u8; 32];
        rng.fill_bytes(&mut d);
        rng.fill_bytes(&mut m);
        rng.fill_bytes(&mut r);
        k_pke_key_gen::<K, ETA1_64>(d, &mut ek, &mut dk).unwrap();
        k_pke_encrypt::<K, ETA1_64, ETA2_64>(DU, DV, &ek, &m, &r, &mut ct).unwrap();
        let back = k_pke_decrypt::<K>(DU, DV, &dk, &ct).unwrap();
        assert_eq!(back, m);
    }
}

#[test]
fn encrypt_with_bad_key_writes_nothing() {
    let m = [1u8; 32];
    let r = [2u8; 32];
    let ff_ek = [0xFFu8; EK_LEN];
    let mut ct = [0x5Au8; CT_LEN];
    let res = k_pke_encrypt::<K, ETA1_64, ETA2_64>(DU, DV, &ff_ek, &m, &r, &mut ct);
    assert_eq!(res, Err(Error::InvalidEncoding));
    assert_eq!(ct, [0x5Au8; CT_LEN]);
}

#[test]
fn decrypt_with_bad_key_is_invalid_encoding() {
    let dk = [0xFFu8; 384 * K];
    let ct = [0u8; CT_LEN];
    assert_eq!(k_pke_decrypt::<K>(DU, DV, &dk, &ct), Err(Error::InvalidEncoding));
}

#[test]
fn decrypt_accepts_every_ciphertext() {
    let mut ek = [0u8; EK_LEN];
    let mut dk = [0u8; 384 * K];
    k_pke_key_gen::<K, ETA1_64>([9u8; 32], &mut ek, &mut dk).unwrap();
    for fill in [0x00u8, 0xFF, 0xA5] {
        let ct = [fill; CT_LEN];
        assert!(k_pke_decrypt::<K>(DU, DV, &dk, &ct).is_ok());
    }
}

#[test]
fn key_gen_is_a_function_of_the_seed_and_leaves_the_tail() {
    let mut ek1 = [0u8; EK_LEN];
    let mut ek2 = [0u8; EK_LEN];
    let mut dk1 = [0x77u8; DK_LEN];
    let mut dk2 = [0u8; 384 * K];
    k_pke_key_gen::<K, ETA1_64>([3u8; 32], &mut ek1, &mut dk1).unwrap();
    k_pke_key_gen::<K, ETA1_64>([3u8; 32], &mut ek2, &mut dk2).unwrap();
    assert_eq!(ek1, ek2);
    assert_eq!(&dk1[0..384 * K], &dk2[..]);
    assert!(dk1[384 * K..].iter().all(|b| *b == 0x77));
    let mut ek3 = [0u8; EK_LEN];
    let mut dk3 = [0u8; 384 * K];
    k_pke_key_gen::<K, ETA1_64>([4u8; 32], &mut ek3, &mut dk3).unwrap();
    assert_ne!(ek1, ek3);
}

#[test]
fn matrix_entries_are_canonical_and_depend_on_the_place() {
    let a = gen_a_hat::<3>(&[7u8; 32]).unwrap();
    for i in 0..3 {
        for j in 0..3 {
            assert!(a[i][j].iter().all(|z| z.0 < 3329));
        }
    }
    let same = (0..256).all(|t| a[0][1][t].0 == a[1][0][t].0);
    assert!(!same);
}
