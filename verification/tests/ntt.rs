use fips203::SharedSecretKey;
use fips203::ntt::{base_case_multiply, gen_zeta_table, multiply_ntts, ntt, ntt_inv};
use fips203::traits::SerDes;
use fips203::types::Z;
use rand::{Rng, SeedableRng};

const Q: u32 = 3329;

fn pow_mod(base: u32, exp: u32) -> u32 {
    let mut r = 1u32;
    for _ in 0..exp {
        r = r * base % Q;
    }
    r
}

fn random_poly(rng: &mut rand_chacha::ChaCha8Rng) -> [Z; 256] {
    let mut f = [Z::default(); 256];
    for z in f.iter_mut() {
        z.set_u16(rng.gen_range(0..3329));
    }
    f
}

#[test]
fn test_zeta_misc() {
    let res = gen_zeta_table();
    assert_eq!(res[4].0, 2580);

    let ssk_bytes = [0u8; 32];
    let ssk = SharedSecretKey::try_from_bytes(ssk_bytes);
    assert!(ssk.is_ok());
}

#[test]
fn zeta_table_is_powers_in_bit_reversed_order() {
    let res = gen_zeta_table();
    for k in 0..256u32 {
        let e = (k as u8).reverse_bits() as u32;
        assert_eq!(res[k as usize].0 as u32, pow_mod(17, e));
    }
    assert_eq!(res[0].0, 1);
    assert_eq!(res[128].0, 17);
    assert_eq!(res[2].0, 1729);
}

#[test]
fn ntt_inv_undoes_ntt_and_back() {
    let zetas = gen_zeta_table();
    let mut rng = rand_chacha::ChaCha8Rng::seed_from_u64(99);
    for _ in 0..20 {
        let f = random_poly(&mut rng);
        let f_hat = ntt(&f, &zetas);
        let back = ntt_inv(&f_hat, &zetas);
        let again = ntt(&ntt_inv(&f, &zetas), &zetas);
        for i in 0..256 {
            assert_eq!(back[i].0, f[i].0);
            assert_eq!(again[i].0, f[i].0);
        }
    }
}

#[test]
fn ntt_is_evaluation_at_odd_powers_of_zeta() {
    // pair i of the transform is f modulo X^2 - zeta^(2 bitrev7(i) + 1)
    let zetas = gen_zeta_table();
    let mut rng = rand_chacha::ChaCha8Rng::seed_from_u64(5);
    let f = random_poly(&mut rng);
    let f_hat = ntt(&f, &zetas);
    for i in 0..128u32 {
        let br7 = ((i as u8).reverse_bits() >> 1) as u32;
        let root = pow_mod(17, 2 * br7 + 1);
        let mut even = 0u32;
        let mut odd = 0u32;
        let mut p = 1u32;
        for j in 0..128 {
            even = (even + f[2 * j].0 as u32 * p) % Q;
            odd = (odd + f[2 * j + 1].0 as u32 * p) % Q;
            p = p * root % Q;
        }
        assert_eq!(f_hat[2 * i as usize].0 as u32, even);
        assert_eq!(f_hat[2 * i as usize + 1].0 as u32, odd);
    }
}

#[test]
fn multiply_ntts_is_the_product_in_the_ring() {
    // the product of transforms is the transform of the product modulo X^256 + 1
    let zetas = gen_zeta_table();
    let mut rng = rand_chacha::ChaCha8Rng::seed_from_u64(11);
    let f = random_poly(&mut rng);
    let g = random_poly(&mut rng);
    let mut prod = [0u32; 256];
    for i in 0..256 {
        for j in 0..256 {
            let t = f[i].0 as u32 * g[j].0 as u32 % Q;
            if i + j < 256 {
                prod[i + j] = (prod[i + j] + t) % Q;
            } else {
                prod[i + j - 256] = (prod[i + j - 256] + Q - t) % Q;
            }
        }
    }
    let h_hat = multiply_ntts(&ntt(&f, &zetas), &ntt(&g, &zetas), &zetas);
    let h = ntt_inv(&h_hat, &zetas);
    for i in 0..256 {
        assert_eq!(h[i].0 as u32, prod[i]);
    }
}

#[test]
fn base_case_multiply_formula() {
    let (c0, c1) = base_case_multiply(Z(3), Z(5), Z(7), Z(11), Z(17));
    assert_eq!(c0.0 as u32, (3 * 7 + 5 * 11 * 17) % Q);
    assert_eq!(c1.0 as u32, (3 * 11 + 5 * 7) % Q);
    let (d0, d1) = base_case_multiply(Z(3328), Z(3328), Z(3328), Z(3328), Z(3328));
    assert_eq!(d0.0 as u32, ((3328u64 * 3328 + 3328u64 * 3328 * 3328) % 3329) as u32);
    assert_eq!(d1.0 as u32, ((2 * 3328u64 * 3328) % 3329) as u32);
}
