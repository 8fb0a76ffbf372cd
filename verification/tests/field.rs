use fips203::types::Z;

#[test]
fn field_operations_on_every_pair_of_a_grid() {
    let q = 3329u32;
    let picks: Vec<u16> = (0..3329u32).step_by(7).map(|x| x as u16).chain([3328u16]).collect();
    for &a in picks.iter() {
        for &b in picks.iter() {
            let (x, y) = (a as u32, b as u32);
            assert_eq!(Z(a).add(Z(b)).0 as u32, (x + y) % q);
            assert_eq!(Z(a).sub(Z(b)).0 as u32, (x + q - y) % q);
            assert_eq!(Z(a).mul(Z(b)).0 as u32, (x * y) % q);
        }
    }
}

#[test]
fn field_edge_values() {
    assert_eq!(Z(3328).add(Z(1)).0, 0);
    assert_eq!(Z(0).sub(Z(1)).0, 3328);
    assert_eq!(Z(3328).mul(Z(3328)).0, 1);
    assert_eq!(Z(17).mul(Z(1175)).0, 1);
    assert_eq!(Z(128).mul(Z(3303)).0, 1);
}

#[test]
fn base_mul_matches_formula() {
    let q = 3329u64;
    let vals = [0u16, 1, 2, 17, 1664, 1665, 3327, 3328];
    for &a0 in vals.iter() {
        for &a1 in vals.iter() {
            for &b0 in vals.iter() {
                for &b1 in vals.iter() {
                    for &g in vals.iter() {
                        let (x0, x1, y0, y1, z) =
                            (a0 as u64, a1 as u64, b0 as u64, b1 as u64, g as u64);
                        let c0 = Z(a0).base_mul(Z(a1), Z(b0), Z(b1), Z(g));
                        assert_eq!(c0.0 as u64, (x0 * y0 + x1 * y1 * z) % q);
                        let c1 = Z(a0).base_mul2(Z(a1), Z(b0), Z(b1));
                        assert_eq!(c1.0 as u64, (x0 * y1 + x1 * y0) % q);
                    }
                }
            }
        }
    }
}

#[test]
fn get_and_set() {
    let mut z = Z::default();
    assert_eq!(z.get_u32(), 0);
    z.set_u16(1234);
    assert_eq!(z.get_u32(), 1234);
    assert_eq!(z.0, 1234);
}
