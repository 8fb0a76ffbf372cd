use fips203::SharedSecretKey;
use fips203::traits::SerDes;
use fips203::types::SecretBytes;

#[test]
fn clear_sets_every_byte_to_zero() {
    let mut s = SecretBytes::new([0xA5u8; 48]);
    assert_eq!(s.as_bytes(), &[0xA5u8; 48]);
    s.clear();
    assert_eq!(s.as_bytes(), &[0u8; 48]);
}

#[test]
fn shared_secrets_compare_by_their_bytes() {
    let a = SharedSecretKey::try_from_bytes([1u8; 32]).unwrap();
    let b = SharedSecretKey::try_from_bytes([1u8; 32]).unwrap();
    let mut other = [1u8; 32];
    other[31] = 2;
    let c = SharedSecretKey::try_from_bytes(other).unwrap();
    assert!(a == b);
    assert!(a != c);
    assert!(a.clone() == a);
    assert_eq!(c.into_bytes(), other);
}

#[test]
fn shared_secret_length() {
    assert_eq!(fips203::SSK_LEN, 32);
    assert_eq!(fips203::Q, 3329);
    assert_eq!(fips203::ZETA, 17);
}
