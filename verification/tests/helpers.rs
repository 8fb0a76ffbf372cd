use fips203::helpers::{
    add_polys, add_vecs, compress_vector, decompress_vector, dot_t_prod, g, h, j, join,
    mul_mat_t_vec, mul_mat_vec, prf, split_digest, xof, zero_polynomial,
};
use fips203::ntt::{gen_zeta_table, multiply_ntts};
use fips203::types::Z;
use rand::{Rng, SeedableRng};
use sha3::{Shake128, Shake256};
use sha3::digest::{ExtendableOutput, Update, XofReader};

fn random_poly(rng: &mut rand_chacha::ChaCha8Rng) -> [Z; 256] {
    let mut f = [Z::default(); 256];
    for z in f.iter_mut() {
        z.set_u16(rng.gen_range(0..3329));
    }
    f
}

fn unhex(s: &str) -> Vec<u8> {
    (0..s.len() / 2).map(|i| u8::from_str_radix(&s[2 * i..2 * i + 2], 16).unwrap()).collect()
}

#[test]
fn h_of_nothing_is_the_known_digest() {
    let want = unhex("a7ffc6f8bf1ed76651c14756a061d662f580ff4de43b49fa82d80a4b80f8434a");
    assert_eq!(h(&[]).to_vec(), want);
}

#[test]
fn h_of_abc_is_the_known_digest() {
    let want = unhex("3a985da74fe225b2045c172d6bd390bd855f086e3e9d525b46bfe24511431532");
    assert_eq!(h(b"abc").to_vec(), want);
}

#[test]
fn g_of_nothing_is_the_known_digest_in_two_halves() {
    let want = unhex(
        "a69f73cca23a9ac5c8b567dc185a756e97c982164fe25859e0d1dcc1475c80a6\
         15b2123af1f5f94c11e3e9402c3ac558f500199d95b6d3e301758586281dcd26",
    );
    let (a, b) = g(&[]);
    assert_eq!(a.to_vec(), want[0..32].to_vec());
    assert_eq!(b.to_vec(), want[32..64].to_vec());
}

#[test]
fn prf_is_shake256_of_seed_and_counter() {
    let s = [0x5Au8; 32];
    for (b, len) in [(0u8, 128usize), (7, 192)] {
        let mut hasher = Shake256::default();
        hasher.update(&s);
        hasher.update(&[b]);
        let mut want = vec![0u8; len];
        hasher.finalize_xof().read(&mut want);
        if len == 128 {
            assert_eq!(prf::<128>(&s, b).to_vec(), want);
        } else {
            assert_eq!(prf::<192>(&s, b).to_vec(), want);
        }
    }
    assert_ne!(prf::<128>(&s, 0), prf::<128>(&s, 1));
}

#[test]
fn xof_is_the_start_of_shake128_of_seed_and_indices() {
    let rho = [0x11u8; 32];
    let mut hasher = Shake128::default();
    hasher.update(&rho);
    hasher.update(&[3, 4]);
    let mut want = vec![0u8; 840];
    hasher.finalize_xof().read(&mut want);
    assert_eq!(xof(&rho, 3, 4).to_vec(), want);
    assert_ne!(xof(&rho, 3, 4), xof(&rho, 4, 3));
}

#[test]
fn shake_of_nothing_starts_as_known() {
    // SHAKE256 on 32 zero bytes is not tabulated here; the empty input is
    let mut out = [0u8; 32];
    Shake256::digest_xof([], &mut out);
    assert_eq!(
        out.to_vec(),
        unhex("46b9dd2b0ba88d13233b3feb743eeb243fcd52ea62b81b82b50c27646ed5762f")
    );
}

#[test]
fn j_is_shake256_of_z_and_ciphertext() {
    let z = [9u8; 32];
    let ct = [7u8; 768];
    let mut hasher = Shake256::default();
    hasher.update(&z);
    hasher.update(&ct);
    let mut want = [0u8; 32];
    hasher.finalize_xof().read(&mut want);
    assert_eq!(j::<800>(&z, &ct), want);
}

#[test]
fn split_digest_gives_the_two_halves() {
    let mut d = [0u8; 64];
    for (i, b) in d.iter_mut().enumerate() {
        *b = i as u8;
    }
    let (lo, hi) = split_digest(&d);
    assert_eq!(lo.to_vec(), (0u8..32).collect::<Vec<u8>>());
    assert_eq!(hi.to_vec(), (32u8..64).collect::<Vec<u8>>());
}

#[test]
fn join_puts_one_after_the_other() {
    assert_eq!(join::<5>(&[1, 2], &[3, 4, 5]), [1, 2, 3, 4, 5]);
    assert_eq!(join::<2>(&[], &[8, 9]), [8, 9]);
}

#[test]
fn compress_is_rounding_modulo_two_to_the_d() {
    for d in 1..12u32 {
        let xs: Vec<u16> = (0..3329u32).map(|x| x as u16).collect();
        let mut v: Vec<Z> = xs.iter().map(|x| Z(*x)).collect();
        compress_vector(d, &mut v);
        for (x, y) in xs.iter().zip(v.iter()) {
            // nearest integer to 2^d x / q, halves up
            let want = (((*x as u64) << (d + 1)) + 3329) / (2 * 3329) % (1 << d);
            assert_eq!(y.0 as u64, want);
        }
    }
}

#[test]
fn compress_exact_values() {
    let mut v = [Z(0), Z(832), Z(833), Z(1664), Z(1665), Z(2496), Z(2497), Z(3328)];
    compress_vector(1, &mut v);
    let got: Vec<u16> = v.iter().map(|z| z.0).collect();
    assert_eq!(got, vec![0, 0, 1, 1, 1, 1, 0, 0]);
    let mut w = [Z(0), Z(1), Z(2), Z(3328)];
    compress_vector(10, &mut w);
    let got: Vec<u16> = w.iter().map(|z| z.0).collect();
    assert_eq!(got, vec![0, 0, 1, 0]);
}

#[test]
fn decompress_is_the_least_integer_not_below() {
    for d in 1..12u32 {
        let ys: Vec<u16> = (0..(1u32 << d)).map(|y| y as u16).collect();
        let mut v: Vec<Z> = ys.iter().map(|y| Z(*y)).collect();
        decompress_vector(d, &mut v);
        for (y, x) in ys.iter().zip(v.iter()) {
            let want = (3329 * (*y as u32) + (1 << d) - 1) >> d;
            assert_eq!(x.0 as u32, want);
            assert!(x.0 < 3329);
        }
    }
}

#[test]
fn decompress_exact_values() {
    let mut v = [Z(0), Z(1)];
    decompress_vector(1, &mut v);
    assert_eq!((v[0].0, v[1].0), (0, 1665));
    let mut w = [Z(0), Z(1), Z(8), Z(15)];
    decompress_vector(4, &mut w);
    let got: Vec<u16> = w.iter().map(|z| z.0).collect();
    assert_eq!(got, vec![0, 209, 1665, 3121]);
}

#[test]
fn vector_arithmetic() {
    let zetas = gen_zeta_table();
    let mut rng = rand_chacha::ChaCha8Rng::seed_from_u64(1);
    let a: [[[Z; 256]; 2]; 2] = [
        [random_poly(&mut rng), random_poly(&mut rng)],
        [random_poly(&mut rng), random_poly(&mut rng)],
    ];
    let u: [[Z; 256]; 2] = [random_poly(&mut rng), random_poly(&mut rng)];
    let v: [[Z; 256]; 2] = [random_poly(&mut rng), random_poly(&mut rng)];

    let zero = zero_polynomial();
    assert!(zero.iter().all(|z| z.0 == 0));

    let s = add_polys(&u[0], &v[0]);
    let sv = add_vecs(&u, &v);
    for t in 0..256 {
        assert_eq!(s[t].0 as u32, (u[0][t].0 as u32 + v[0][t].0 as u32) % 3329);
        assert_eq!(sv[0][t].0, s[t].0);
        assert_eq!(sv[1][t].0 as u32, (u[1][t].0 as u32 + v[1][t].0 as u32) % 3329);
    }

    let dot = dot_t_prod(&u, &v, &zetas);
    let want = add_polys(
        &multiply_ntts(&u[0], &v[0], &zetas),
        &multiply_ntts(&u[1], &v[1], &zetas),
    );
    let w = mul_mat_vec(&a, &u, &zetas);
    let y = mul_mat_t_vec(&a, &u, &zetas);
    let w0 = add_polys(
        &multiply_ntts(&a[0][0], &u[0], &zetas),
        &multiply_ntts(&a[0][1], &u[1], &zetas),
    );
    let w1 = add_polys(
        &multiply_ntts(&a[1][0], &u[0], &zetas),
        &multiply_ntts(&a[1][1], &u[1], &zetas),
    );
    let y0 = add_polys(
        &multiply_ntts(&a[0][0], &u[0], &zetas),
        &multiply_ntts(&a[1][0], &u[1], &zetas),
    );
    let y1 = add_polys(
        &multiply_ntts(&a[0][1], &u[0], &zetas),
        &multiply_ntts(&a[1][1], &u[1], &zetas),
    );
    for t in 0..256 {
        assert_eq!(dot[t].0, want[t].0);
        assert_eq!(w[0][t].0, w0[t].0);
        assert_eq!(w[1][t].0, w1[t].0);
        assert_eq!(y[0][t].0, y0[t].0);
        assert_eq!(y[1][t].0, y1[t].0);
    }
}
