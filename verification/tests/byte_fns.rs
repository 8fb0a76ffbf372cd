use fips203::Error;
use fips203::byte_fns::{byte_decode, byte_encode, byte_encode_at, byte_unpack};
use fips203::types::Z;
use rand::{Rng, SeedableRng};

// Simple round trip tests...
#[test]
fn test_decode_and_encode() {
    let mut rng = rand_chacha::ChaCha8Rng::seed_from_u64(123);
    for num_bits in 2..12_u32 {
        for _i in 0..100 {
            let num_bytes = 32 * num_bits as usize;
            let mut bytes2 = vec![0u8; num_bytes];
            let bytes1: Vec<u8> = (0..num_bytes).map(|_| rng.gen()).collect();
            let integer_array = byte_decode(num_bits, &bytes1).unwrap();
            byte_encode(num_bits, &integer_array, &mut bytes2);
            assert_eq!(bytes1, bytes2);
        }
    }
}

#[test]
fn byte_fns_test_result_errs() {
    let mut integer_array = [Z::default(); 256];
    let num_bits = 12;
    let num_bytes = 32 * num_bits as usize;
    let bytes1: Vec<u8> = (0..num_bytes).map(|_| 0xFF).collect();
    let ret = byte_decode(num_bits, &bytes1);
    assert!(ret.is_err());
    integer_array.iter_mut().for_each(|x| x.set_u16(u16::MAX));
}

#[test]
fn decode_of_all_ff_is_invalid_encoding() {
    let bytes = vec![0xFFu8; 384];
    assert_eq!(byte_decode(12, &bytes).err(), Some(Error::InvalidEncoding));
}

#[test]
fn round_trip_for_one_bit_and_twelve_bits() {
    let mut rng = rand_chacha::ChaCha8Rng::seed_from_u64(7);
    // d = 1: every byte string decodes
    let bytes1: Vec<u8> = (0..32).map(|_| rng.gen()).collect();
    let f = byte_decode(1, &bytes1).unwrap();
    let mut bytes2 = vec![0u8; 32];
    byte_encode(1, &f, &mut bytes2);
    assert_eq!(bytes1, bytes2);
    // d = 12: coefficients below Q encode and decode to themselves
    let mut g = [Z::default(); 256];
    for (i, z) in g.iter_mut().enumerate() {
        z.set_u16(((i * 13 + 5) % 3329) as u16);
    }
    let mut bytes = vec![0u8; 384];
    byte_encode(12, &g, &mut bytes);
    let back = byte_decode(12, &bytes).unwrap();
    for i in 0..256 {
        assert_eq!(back[i].0, g[i].0);
    }
}

#[test]
fn encode_packs_least_significant_bit_first() {
    // coefficients 1, 2, 3, ... at 4 bits each: 0x21, 0x43, ...
    let mut f = [Z::default(); 256];
    for (i, z) in f.iter_mut().enumerate() {
        z.set_u16(((i + 1) % 16) as u16);
    }
    let mut bytes = vec![0u8; 128];
    byte_encode(4, &f, &mut bytes);
    assert_eq!(&bytes[0..4], &[0x21, 0x43, 0x65, 0x87]);
    // 12 bits: 0x001 and 0x002 give 01 20 00
    let mut h = [Z::default(); 256];
    h[0].set_u16(1);
    h[1].set_u16(2);
    h[2].set_u16(0xABC);
    h[3].set_u16(0x123);
    let mut out = vec![0u8; 384];
    byte_encode(12, &h, &mut out);
    assert_eq!(&out[0..6], &[0x01, 0x20, 0x00, 0xBC, 0x3A, 0x12]);
}

#[test]
fn decode_twelve_bits_rejects_exactly_from_q_on() {
    // first coefficient 3328 is accepted, 3329 is not
    let mut bytes = vec![0u8; 384];
    bytes[0] = (3328 & 0xFF) as u8;
    bytes[1] = (3328 >> 8) as u8;
    let f = byte_decode(12, &bytes).unwrap();
    assert_eq!(f[0].0, 3328);
    assert_eq!(f[1].0, 0);
    bytes[0] = (3329 & 0xFF) as u8;
    bytes[1] = (3329 >> 8) as u8;
    assert_eq!(byte_decode(12, &bytes).err(), Some(Error::InvalidEncoding));
    // a bad coefficient in the last place is found too
    let mut tail = vec![0u8; 384];
    tail[382] = 0xF0;
    tail[383] = 0xFF;
    assert_eq!(byte_decode(12, &tail).err(), Some(Error::InvalidEncoding));
}

#[test]
fn unpack_keeps_values_that_decode_refuses() {
    let bytes = vec![0xFFu8; 384];
    let f = byte_unpack(12, &bytes);
    for z in f.iter() {
        assert_eq!(z.0, 4095);
    }
}

#[test]
fn encode_at_leaves_the_other_bytes() {
    let mut f = [Z::default(); 256];
    for z in f.iter_mut() {
        z.set_u16(1);
    }
    let mut out = vec![0xEEu8; 40];
    byte_encode_at(1, &f, &mut out, 4);
    assert_eq!(&out[0..4], &[0xEE; 4]);
    assert_eq!(&out[4..36], &[0xFF; 32]);
    assert_eq!(&out[36..40], &[0xEE; 4]);
}

#[test]
fn encode_masks_to_d_bits() {
    let mut f = [Z::default(); 256];
    f[0].set_u16(0x1F); // five bits, four are kept
    let mut out = vec![0u8; 128];
    byte_encode(4, &f, &mut out);
    assert_eq!(out[0], 0x0F);
}
