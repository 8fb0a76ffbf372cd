use fips203::sampling::{count_ones, sample_ntt, sample_poly_cbd};
use rand::{Rng, SeedableRng};

#[test]
fn count_ones_of_every_byte() {
    for x in 0..256u32 {
        assert_eq!(count_ones(x) as u32, x.count_ones());
    }
}

#[test]
fn count_ones_counts_the_two_low_bytes_apart() {
    assert_eq!(count_ones(0x0000_0100), 256);
    assert_eq!(count_ones(0x0000_FFFF), 8 + 256 * 8);
    assert_eq!(count_ones(0x0000_0307), 3 + 256 * 2);
    // bits above the two low bytes do not count
    assert_eq!(count_ones(0xFFFF_0001), 1);
}

#[test]
fn sample_ntt_takes_the_first_256_candidates_below_q() {
    // 3 bytes 0x01 0x10 0x00 give the candidates 1 and 1
    let mut stream = Vec::new();
    for _ in 0..128 {
        stream.extend_from_slice(&[0x01, 0x10, 0x00]);
    }
    let a = sample_ntt(&stream).unwrap();
    assert!(a.iter().all(|z| z.0 == 1));

    // candidates from q on are passed over: 0x01 0x0D -> 3329, then 0xD0 0x00 -> 13
    let mut mixed = Vec::new();
    for _ in 0..256 {
        mixed.extend_from_slice(&[0x01, 0xDD, 0x00]);
    }
    let b = sample_ntt(&mixed).unwrap();
    assert!(b.iter().all(|z| z.0 == 13));

    // the greatest candidate that is taken, and the least that is not
    let mut edge = vec![0x00, 0x1D, 0xD0]; // 0xD00 = 3328 and 0xD01 = 3329
    for _ in 0..128 {
        edge.extend_from_slice(&[0x02, 0x30, 0x00]); // 2 and 3
    }
    let c = sample_ntt(&edge).unwrap();
    assert_eq!((c[0].0, c[1].0, c[2].0, c[3].0), (3328, 2, 3, 2));
}

#[test]
fn sample_ntt_needs_256_acceptable_candidates() {
    assert!(sample_ntt(&[]).is_none());
    assert!(sample_ntt(&[0xFFu8; 840]).is_none());
    // 127 draws and a part of one give 254 candidates
    let mut short = Vec::new();
    for _ in 0..127 {
        short.extend_from_slice(&[0x01, 0x10, 0x00]);
    }
    short.extend_from_slice(&[0x01, 0x10]);
    assert!(sample_ntt(&short).is_none());
    short.push(0x00);
    assert!(sample_ntt(&short).is_some());
    // what follows the 256th accepted candidate is not read
    short.extend_from_slice(&[0xFF; 30]);
    assert_eq!(sample_ntt(&short).unwrap()[255].0, 1);
}

#[test]
fn cbd_is_ones_low_minus_ones_high() {
    // eta = 2: each half byte is a coefficient, low two bits minus high two bits
    let mut bytes = [0u8; 128];
    bytes[0] = 0b0100_0011; // coefficient 0: 2 - 0, coefficient 1: 0 - 1
    bytes[1] = 0b1111_1101; // coefficient 2: 1 - 2, coefficient 3: 2 - 2
    let f = sample_poly_cbd(&bytes);
    assert_eq!((f[0].0, f[1].0, f[2].0, f[3].0), (2, 3328, 3328, 0));
    assert!(f[4..].iter().all(|z| z.0 == 0));

    // eta = 3: six bits a coefficient
    let mut bytes3 = [0u8; 192];
    bytes3[0] = 0b00_000_111; // coefficient 0: 3 - 0
    bytes3[1] = 0b0000_1110; // coefficient 1: bits 6..11 = 00 then 1110 -> low 000|... 
    let f3 = sample_poly_cbd(&bytes3);
    assert_eq!(f3[0].0, 3);
    // coefficient 1 is bits 6 to 11: 0,0 from the first byte, then 0,1,1,1
    // low three bits 0,0,0 and high three bits 1,1,1
    assert_eq!(f3[1].0, 3329 - 3);
}

#[test]
fn cbd_against_the_bit_formula() {
    let mut rng = rand_chacha::ChaCha8Rng::seed_from_u64(42);
    for eta in [2usize, 3] {
        let bytes: Vec<u8> = (0..64 * eta).map(|_| rng.gen()).collect();
        let bit = |n: usize| ((bytes[n / 8] >> (n % 8)) & 1) as i32;
        let f = sample_poly_cbd(&bytes);
        for i in 0..256 {
            let x: i32 = (0..eta).map(|j| bit(2 * i * eta + j)).sum();
            let y: i32 = (0..eta).map(|j| bit(2 * i * eta + eta + j)).sum();
            assert_eq!(f[i].0 as i32, (x - y).rem_euclid(3329));
        }
    }
}
