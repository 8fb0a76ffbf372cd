//! Hash adapters, compression, and the arithmetic of vectors and matrices of
//! transformed polynomials.
use crate::Q;
use crate::byte_fns::lemma_mask_is_mod;
use crate::constant_time::wipe;
use crate::ntt::{fadd, is_zeta_table, multiply_ntts, multiply_ntts_spec};
use crate::types::{all_wf, BARRETT_36, lemma_barrett36, lemma_shr36, poly, Z};
use sha3::{Digest, Sha3_256, Sha3_512, Shake128, Shake256};
use sha3::digest::ExtendableOutput;
use vstd::arithmetic::div_mod::*;
use vstd::arithmetic::power2::*;
use vstd::bits::*;
use vstd::prelude::*;

verus! {

/// The 32 bytes of SHA3-256 of `input`.
pub uninterp spec fn sha3_256(input: Seq<u8>) -> Seq<u8>;

/// The 64 bytes of SHA3-512 of `input`.
pub uninterp spec fn sha3_512(input: Seq<u8>) -> Seq<u8>;

/// The first `len` bytes of the output of SHAKE128 on `input`.
pub uninterp spec fn shake128(input: Seq<u8>, len: nat) -> Seq<u8>;

/// The first `len` bytes of the output of SHAKE256 on `input`.
pub uninterp spec fn shake256(input: Seq<u8>, len: nat) -> Seq<u8>;

/// `Digest::digest` of the sha3 crate for `Sha3_256`: the digest of `data`,
/// a function of the bytes alone.
#[verifier::external_body]
pub(crate) fn sha3_256_digest(data: &[u8]) -> (r: [u8; 32])
    ensures
        r@ == sha3_256(data@),
{
    Sha3_256::digest(data).into()
}

/// `Digest::digest` of the sha3 crate for `Sha3_512`: the digest of `data`,
/// a function of the bytes alone.
#[verifier::external_body]
pub(crate) fn sha3_512_digest(data: &[u8]) -> (r: [u8; 64])
    ensures
        r@ == sha3_512(data@),
{
    Sha3_512::digest(data).into()
}

/// `ExtendableOutput::digest_xof` of the sha3 crate for `Shake128`: the first
/// `N` bytes of the output on `input`, a function of the bytes and of `N`
/// alone.
#[verifier::external_body]
pub(crate) fn shake128_squeeze<const N: usize>(input: &[u8]) -> (r: [u8; N])
    ensures
        r@ == shake128(input@, N as nat),
{
    let mut result = [0u8; N];
    Shake128::digest_xof(input, &mut result);
    result
}

/// `ExtendableOutput::digest_xof` of the sha3 crate for `Shake256`: the first
/// `N` bytes of the output on `input`, a function of the bytes and of `N`
/// alone.
#[verifier::external_body]
pub(crate) fn shake256_squeeze<const N: usize>(input: &[u8]) -> (r: [u8; N])
    ensures
        r@ == shake256(input@, N as nat),
{
    let mut result = [0u8; N];
    Shake256::digest_xof(input, &mut result);
    result
}

/// The number of bytes drawn from the stream of one matrix entry: 280 draws
/// of three bytes, 560 candidates for 256 coefficients.
pub const XOF_LEN: usize = 840;

/// The pseudorandom bytes `PRF_eta(s, b)`: `64 eta` bytes of SHAKE256 on
/// `s || b`.
pub open spec fn prf_spec(eta: nat, s: Seq<u8>, b: u8) -> Seq<u8> {
    shake256(s + seq![b], 64 * eta)
}

/// The bytes drawn from the stream `XOF(rho, i, j)`: SHAKE128 on
/// `rho || i || j`.
pub open spec fn xof_spec(rho: Seq<u8>, i: u8, j: u8) -> Seq<u8> {
    shake128(rho + seq![i, j], XOF_LEN as nat)
}

/// The two halves of `G(x)`, SHA3-512 of `x`.
pub open spec fn g_spec(x: Seq<u8>) -> (Seq<u8>, Seq<u8>) {
    (sha3_512(x).subrange(0, 32), sha3_512(x).subrange(32, 64))
}

/// `H(x)`, SHA3-256 of `x`.
pub open spec fn h_spec(x: Seq<u8>) -> Seq<u8> {
    sha3_256(x)
}

/// `J(z, c)`: 32 bytes of SHAKE256 on `z || c`.
pub open spec fn j_spec(z: Seq<u8>, c: Seq<u8>) -> Seq<u8> {
    shake256(z + c, 32)
}

/// The `N` bytes of `a` followed by `b`.
pub fn join<const N: usize>(a: &[u8], b: &[u8]) -> (r: [u8; N])
    requires
        a@.len() + b@.len() == N,
    ensures
        r@ == a@ + b@,
{
    let mut r: [u8; N] = [0u8; N];
    let n: usize = a.len();
    let m: usize = b.len();
    let mut i: usize = 0;
    while i < n
        invariant
            i <= n,
            n == a@.len(),
            n + m == N,
            forall|t: int| 0 <= t < i ==> r@[t] == a@[t],
        decreases n - i,
    {
        r[i] = a[i];
        i = i + 1;
    }
    let mut k: usize = 0;
    while k < m
        invariant
            k <= m,
            n == a@.len(),
            m == b@.len(),
            n + m == N,
            forall|t: int| 0 <= t < n ==> r@[t] == a@[t],
            forall|t: int| 0 <= t < k ==> r@[n + t] == b@[t],
        decreases m - k,
    {
        r[n + k] = b[k];
        k = k + 1;
    }
    proof {
        assert(r@ =~= a@ + b@);
    }
    r
}

/// `PRF_eta(s, b)` for `ETA_64 = 64 eta`.
pub fn prf<const ETA_64: usize>(s: &[u8; 32], b: u8) -> (r: [u8; ETA_64])
    ensures
        r@ == shake256(s@ + seq![b], ETA_64 as nat),
{
    let tail: [u8; 1] = [b];
    assert(tail@ =~= seq![b]);
    let mut input: [u8; 33] = join::<33>(s.as_slice(), tail.as_slice());
    let r = shake256_squeeze::<ETA_64>(input.as_slice());
    wipe(&mut input);
    r
}

/// The first `XOF_LEN` bytes of the stream `XOF(rho, i, j)`.
pub fn xof(rho: &[u8; 32], i: u8, j: u8) -> (r: [u8; XOF_LEN])
    ensures
        r@ == xof_spec(rho@, i, j),
{
    let tail: [u8; 2] = [i, j];
    assert(tail@ =~= seq![i, j]);
    let input: [u8; 34] = join::<34>(rho.as_slice(), tail.as_slice());
    shake128_squeeze::<XOF_LEN>(input.as_slice())
}

/// The two halves of 32 bytes of a digest of 64 bytes.
pub fn split_digest(digest: &[u8; 64]) -> (r: ([u8; 32], [u8; 32]))
    ensures
        r.0@ == digest@.subrange(0, 32),
        r.1@ == digest@.subrange(32, 64),
{
    let mut lo: [u8; 32] = [0u8; 32];
    let mut hi: [u8; 32] = [0u8; 32];
    let mut i: usize = 0;
    while i < 32
        invariant
            i <= 32,
            forall|t: int| 0 <= t < i ==> lo@[t] == digest@[t],
            forall|t: int| 0 <= t < i ==> hi@[t] == digest@[32 + t],
        decreases 32 - i,
    {
        lo[i] = digest[i];
        hi[i] = digest[32 + i];
        i = i + 1;
    }
    assert(lo@ =~= digest@.subrange(0, 32));
    assert(hi@ =~= digest@.subrange(32, 64));
    (lo, hi)
}

/// `G(bytes)`, split into its two halves of 32 bytes.
pub fn g(bytes: &[u8]) -> (r: ([u8; 32], [u8; 32]))
    ensures
        r.0@ == g_spec(bytes@).0,
        r.1@ == g_spec(bytes@).1,
{
    let mut digest = sha3_512_digest(bytes);
    let halves = split_digest(&digest);
    wipe(&mut digest);
    halves
}

/// `H(bytes)`.
pub fn h(bytes: &[u8]) -> (r: [u8; 32])
    ensures
        r@ == h_spec(bytes@),
{
    sha3_256_digest(bytes)
}

/// `J(z, ct)` for `J_LEN` the length of `z || ct`.
pub fn j<const J_LEN: usize>(z: &[u8; 32], ct: &[u8]) -> (r: [u8; 32])
    requires
        J_LEN == 32 + ct@.len(),
    ensures
        r@ == j_spec(z@, ct@),
{
    let mut input: [u8; J_LEN] = join::<J_LEN>(z.as_slice(), ct);
    let r = shake256_squeeze::<32>(input.as_slice());
    wipe(&mut input);
    r
}

/// `Compress_d(x)`: the nearest integer to `(2^d / Q) x`, halves rounded
/// up, modulo `2^d`.
pub open spec fn compress_spec(d: nat, x: int) -> int {
    ((x * pow2(d) + 1664) / 3329) % (pow2(d) as int)
}

/// `Decompress_d(y)` as this library computes it: the least integer that is
/// not below `(Q / 2^d) y`.
pub open spec fn decompress_spec(d: nat, y: int) -> int {
    (3329 * y + pow2(d) - 1) / (pow2(d) as int)
}

/// `Compress_d` of every coefficient.
pub open spec fn compress_poly(d: nat, f: Seq<int>) -> Seq<int> {
    f.map_values(|x: int| compress_spec(d, x))
}

/// `Decompress_d` of every coefficient.
pub open spec fn decompress_poly(d: nat, f: Seq<int>) -> Seq<int> {
    f.map_values(|y: int| decompress_spec(d, y))
}

/// Powers of two up to `2^12`, as numbers.
pub proof fn lemma_pow2_small(d: nat)
    requires
        d <= 12,
    ensures
        1 <= pow2(d) <= 4096,
        d <= 11 ==> pow2(d) <= 2048,
{
    lemma2_to64();
    lemma_pow2_pos(d);
    if d < 11 {
        lemma_pow2_strictly_increases(d, 11);
    }
    if d < 12 {
        lemma_pow2_strictly_increases(d, 12);
    }
}

/// Replaces every coefficient by its compression to `d` bits, by a
/// multiplication with `BARRETT_36` in place of the division by `Q`.
pub fn compress_vector(d: u32, inout: &mut [Z])
    requires
        1 <= d <= 11,
        all_wf(old(inout)@),
    ensures
        final(inout)@.len() == old(inout)@.len(),
        poly(final(inout)@) == compress_poly(d as nat, poly(old(inout)@)),
        forall|i: int|
            0 <= i < final(inout)@.len() ==> 0 <= #[trigger] final(inout)@[i]@ < pow2(d as nat),
{
    proof {
        lemma_mask_is_mod(0, d);
        lemma_pow2_small(d as nat);
    }
    let mask: u32 = (1u32 << d) - 1;
    let n: usize = inout.len();
    let mut i: usize = 0;
    while i < n
        invariant
            1 <= d <= 11,
            i <= n,
            n == inout@.len(),
            n == old(inout)@.len(),
            mask == (1u32 << d) - 1,
            forall|t: int| i <= t < n ==> inout@[t] == old(inout)@[t],
            forall|t: int| i <= t < n ==> (#[trigger] inout@[t]).wf(),
            forall|t: int|
                0 <= t < i ==> (#[trigger] inout@[t])@ == compress_spec(
                    d as nat,
                    old(inout)@[t]@,
                ),
            forall|t: int| 0 <= t < i ==> 0 <= (#[trigger] inout@[t])@ < pow2(d as nat),
        decreases n - i,
    {
        let x: u32 = inout[i].get_u32();
        proof {
            lemma_pow2_small(d as nat);
            assert(x * pow2(d as nat) <= 3328 * 2048) by (nonlinear_arith)
                requires
                    x <= 3328,
                    pow2(d as nat) <= 2048,
            ;
            lemma_u32_shl_is_mul(x, d);
        }
        let y: u32 = (x << d) + (Q as u32) / 2;
        let wide: u64 = y as u64 * BARRETT_36;
        proof {
            lemma_shr36(wide);
            lemma_barrett36(y as int);
            lemma_mask_is_mod((wide >> 36) as u32, d);
            lemma_mod_bound((y as int) / 3329, pow2(d as nat) as int);
        }
        #[verifier::truncate]
        let quot: u32 = (wide >> 36) as u32;
        let low: u32 = quot & mask;
        inout[i] = Z(low as u16);
        i = i + 1;
    }
    proof {
        assert(poly(inout@) =~= compress_poly(d as nat, poly(old(inout)@)));
    }
}

/// Replaces every coefficient, a value of `d` bits, by its decompression.
pub fn decompress_vector(d: u32, inout: &mut [Z])
    requires
        1 <= d <= 11,
        forall|i: int| 0 <= i < old(inout)@.len() ==> (#[trigger] old(inout)@[i])@ < pow2(d as nat),
    ensures
        final(inout)@.len() == old(inout)@.len(),
        poly(final(inout)@) == decompress_poly(d as nat, poly(old(inout)@)),
        all_wf(final(inout)@),
{
    proof {
        lemma_mask_is_mod(0, d);
        lemma_pow2_small(d as nat);
    }
    let n: usize = inout.len();
    let mut i: usize = 0;
    while i < n
        invariant
            1 <= d <= 11,
            i <= n,
            n == inout@.len(),
            n == old(inout)@.len(),
            (1u32 << d) == pow2(d as nat),
            forall|t: int| i <= t < n ==> inout@[t] == old(inout)@[t],
            forall|t: int| 0 <= t < n ==> (#[trigger] old(inout)@[t])@ < pow2(d as nat),
            forall|t: int|
                0 <= t < i ==> (#[trigger] inout@[t])@ == decompress_spec(
                    d as nat,
                    old(inout)@[t]@,
                ),
            forall|t: int| 0 <= t < i ==> (#[trigger] inout@[t]).wf(),
        decreases n - i,
    {
        let y: u32 = inout[i].get_u32();
        proof {
            lemma_pow2_small(d as nat);
            assert(old(inout)@[i as int]@ < pow2(d as nat));
        }
        let qy: u32 = 3329 * y + (1u32 << d) - 1;
        proof {
            let p = pow2(d as nat) as int;
            lemma_u32_shr_is_div(qy, d);
            assert(qy < 3329 * p);
            lemma_multiply_divide_lt(qy as int, p, 3329);
        }
        let v: u32 = qy >> d;
        inout[i] = Z(v as u16);
        i = i + 1;
    }
    proof {
        assert(poly(inout@) =~= decompress_poly(d as nat, poly(old(inout)@)));
    }
}

/// The polynomials that a sequence of coefficient arrays stands for.
pub open spec fn polys(v: Seq<[Z; 256]>) -> Seq<Seq<int>> {
    v.map_values(|p: [Z; 256]| poly(p@))
}

/// Whether every coefficient of every polynomial is canonical.
pub open spec fn vec_wf(v: Seq<[Z; 256]>) -> bool {
    forall|i: int| 0 <= i < v.len() ==> all_wf(#[trigger] v[i]@)
}

/// The matrix of polynomials that an array of rows stands for.
pub open spec fn matrix<const K: usize>(a: Seq<[[Z; 256]; K]>) -> Seq<Seq<Seq<int>>> {
    a.map_values(|row: [[Z; 256]; K]| polys(row@))
}

/// Whether every coefficient of every entry of the matrix is canonical.
pub open spec fn mat_wf<const K: usize>(a: Seq<[[Z; 256]; K]>) -> bool {
    forall|i: int| 0 <= i < a.len() ==> vec_wf(#[trigger] a[i]@)
}

/// The polynomial with every coefficient 0.
pub open spec fn zero_poly() -> Seq<int> {
    Seq::new(256, |t: int| 0int)
}

/// The sum of two polynomials, coefficient by coefficient modulo `Q`.
pub open spec fn poly_add(a: Seq<int>, b: Seq<int>) -> Seq<int> {
    Seq::new(256, |t: int| fadd(a[t], b[t]))
}

/// The sum of two vectors of polynomials, entry by entry.
pub open spec fn vec_add(a: Seq<Seq<int>>, b: Seq<Seq<int>>) -> Seq<Seq<int>> {
    Seq::new(a.len(), |i: int| poly_add(a[i], b[i]))
}

/// The sum of the products of the first `n` entries of `u` and `v`, each
/// product taken between transformed polynomials.
pub open spec fn dot(u: Seq<Seq<int>>, v: Seq<Seq<int>>, n: nat) -> Seq<int>
    decreases n,
{
    if n == 0 {
        zero_poly()
    } else {
        poly_add(dot(u, v, (n - 1) as nat), multiply_ntts_spec(u[n - 1], v[n - 1]))
    }
}

/// Column `i` of a matrix.
pub open spec fn column(a: Seq<Seq<Seq<int>>>, i: int) -> Seq<Seq<int>> {
    Seq::new(a.len(), |j: int| a[j][i])
}

/// The product of a matrix and a vector of transformed polynomials.
pub open spec fn mat_vec(a: Seq<Seq<Seq<int>>>, u: Seq<Seq<int>>) -> Seq<Seq<int>> {
    Seq::new(a.len(), |i: int| dot(a[i], u, u.len()))
}

/// The product of the transpose of a matrix and a vector of transformed
/// polynomials.
pub open spec fn mat_t_vec(a: Seq<Seq<Seq<int>>>, u: Seq<Seq<int>>) -> Seq<Seq<int>> {
    Seq::new(a.len(), |i: int| dot(column(a, i), u, u.len()))
}

/// The polynomial with every coefficient 0.
pub fn zero_polynomial() -> (r: [Z; 256])
    ensures
        all_wf(r@),
        poly(r@) == zero_poly(),
{
    let mut r: [Z; 256] = [Z(0); 256];
    let mut n: usize = 0;
    while n < 256
        invariant
            n <= 256,
            forall|t: int| 0 <= t < n ==> (#[trigger] r@[t]).0 == 0,
        decreases 256 - n,
    {
        r[n] = Z(0);
        n = n + 1;
    }
    proof {
        assert(poly(r@) =~= zero_poly());
    }
    r
}

/// The sum of two polynomials.
pub fn add_polys(a: &[Z; 256], b: &[Z; 256]) -> (r: [Z; 256])
    requires
        all_wf(a@),
        all_wf(b@),
    ensures
        all_wf(r@),
        poly(r@) == poly_add(poly(a@), poly(b@)),
{
    let mut r: [Z; 256] = [Z(0); 256];
    let mut n: usize = 0;
    while n < 256
        invariant
            n <= 256,
            all_wf(a@),
            all_wf(b@),
            forall|t: int| 0 <= t < n ==> (#[trigger] r@[t]).wf(),
            forall|t: int| 0 <= t < n ==> (#[trigger] r@[t])@ == fadd(a@[t]@, b@[t]@),
        decreases 256 - n,
    {
        r[n] = a[n].add(b[n]);
        n = n + 1;
    }
    proof {
        assert(poly(r@) =~= poly_add(poly(a@), poly(b@)));
    }
    r
}

/// The sum of two vectors of polynomials.
pub fn add_vecs<const K: usize>(vec_a: &[[Z; 256]; K], vec_b: &[[Z; 256]; K]) -> (r: [[Z; 256]; K])
    requires
        vec_wf(vec_a@),
        vec_wf(vec_b@),
    ensures
        vec_wf(r@),
        polys(r@) == vec_add(polys(vec_a@), polys(vec_b@)),
{
    let mut r: [[Z; 256]; K] = [[Z(0); 256]; K];
    let mut k: usize = 0;
    while k < K
        invariant
            k <= K,
            vec_wf(vec_a@),
            vec_wf(vec_b@),
            forall|i: int| 0 <= i < k ==> all_wf(#[trigger] r@[i]@),
            forall|i: int|
                0 <= i < k ==> poly((#[trigger] r@[i])@) == poly_add(
                    poly(vec_a@[i]@),
                    poly(vec_b@[i]@),
                ),
        decreases K - k,
    {
        proof {
            assert(all_wf(vec_a@[k as int]@));
            assert(all_wf(vec_b@[k as int]@));
        }
        r[k] = add_polys(&vec_a[k], &vec_b[k]);
        k = k + 1;
    }
    proof {
        assert(polys(r@) =~= vec_add(polys(vec_a@), polys(vec_b@)));
    }
    r
}

/// The sum of the products of the entries of `u_hat` and `v_hat`.
pub fn dot_t_prod<const K: usize>(
    u_hat: &[[Z; 256]; K],
    v_hat: &[[Z; 256]; K],
    zetas: &[Z; 256],
) -> (r: [Z; 256])
    requires
        vec_wf(u_hat@),
        vec_wf(v_hat@),
        is_zeta_table(zetas@),
    ensures
        all_wf(r@),
        poly(r@) == dot(polys(u_hat@), polys(v_hat@), K as nat),
{
    let mut result: [Z; 256] = zero_polynomial();
    let mut j: usize = 0;
    while j < K
        invariant
            j <= K,
            vec_wf(u_hat@),
            vec_wf(v_hat@),
            is_zeta_table(zetas@),
            all_wf(result@),
            poly(result@) == dot(polys(u_hat@), polys(v_hat@), j as nat),
        decreases K - j,
    {
        proof {
            assert(all_wf(u_hat@[j as int]@));
            assert(all_wf(v_hat@[j as int]@));
        }
        let tmp = multiply_ntts(&u_hat[j], &v_hat[j], zetas);
        result = add_polys(&result, &tmp);
        j = j + 1;
    }
    result
}

/// The product of the matrix `a_hat` and the vector `u_hat`.
pub fn mul_mat_vec<const K: usize>(
    a_hat: &[[[Z; 256]; K]; K],
    u_hat: &[[Z; 256]; K],
    zetas: &[Z; 256],
) -> (r: [[Z; 256]; K])
    requires
        mat_wf(a_hat@),
        vec_wf(u_hat@),
        is_zeta_table(zetas@),
    ensures
        vec_wf(r@),
        polys(r@) == mat_vec(matrix(a_hat@), polys(u_hat@)),
{
    let mut w_hat: [[Z; 256]; K] = [[Z(0); 256]; K];
    let mut i: usize = 0;
    while i < K
        invariant
            i <= K,
            mat_wf(a_hat@),
            vec_wf(u_hat@),
            is_zeta_table(zetas@),
            forall|t: int| 0 <= t < i ==> all_wf(#[trigger] w_hat@[t]@),
            forall|t: int|
                0 <= t < i ==> poly((#[trigger] w_hat@[t])@) == dot(
                    polys(a_hat@[t]@),
                    polys(u_hat@),
                    K as nat,
                ),
        decreases K - i,
    {
        proof {
            assert(vec_wf(a_hat@[i as int]@));
        }
        w_hat[i] = dot_t_prod(&a_hat[i], u_hat, zetas);
        i = i + 1;
    }
    proof {
        assert(polys(w_hat@) =~= mat_vec(matrix(a_hat@), polys(u_hat@)));
    }
    w_hat
}

/// The product of the transpose of the matrix `a_hat` and the vector
/// `u_hat`.
pub fn mul_mat_t_vec<const K: usize>(
    a_hat: &[[[Z; 256]; K]; K],
    u_hat: &[[Z; 256]; K],
    zetas: &[Z; 256],
) -> (r: [[Z; 256]; K])
    requires
        mat_wf(a_hat@),
        vec_wf(u_hat@),
        is_zeta_table(zetas@),
    ensures
        vec_wf(r@),
        polys(r@) == mat_t_vec(matrix(a_hat@), polys(u_hat@)),
{
    let mut y_hat: [[Z; 256]; K] = [[Z(0); 256]; K];
    let mut i: usize = 0;
    while i < K
        invariant
            i <= K,
            mat_wf(a_hat@),
            vec_wf(u_hat@),
            is_zeta_table(zetas@),
            forall|t: int| 0 <= t < i ==> all_wf(#[trigger] y_hat@[t]@),
            forall|t: int|
                0 <= t < i ==> poly((#[trigger] y_hat@[t])@) == dot(
                    column(matrix(a_hat@), t),
                    polys(u_hat@),
                    K as nat,
                ),
        decreases K - i,
    {
        let ghost col = column(matrix(a_hat@), i as int);
        let mut acc: [Z; 256] = zero_polynomial();
        let mut j: usize = 0;
        while j < K
            invariant
                j <= K,
                i < K,
                mat_wf(a_hat@),
                vec_wf(u_hat@),
                is_zeta_table(zetas@),
                col == column(matrix(a_hat@), i as int),
                all_wf(acc@),
                poly(acc@) == dot(col, polys(u_hat@), j as nat),
            decreases K - j,
        {
            proof {
                assert(vec_wf(a_hat@[j as int]@));
                assert(all_wf(a_hat@[j as int]@[i as int]@));
                assert(all_wf(u_hat@[j as int]@));
                assert(col[j as int] == poly(a_hat@[j as int]@[i as int]@));
            }
            let tmp = multiply_ntts(&a_hat[j][i], &u_hat[j], zetas);
            acc = add_polys(&acc, &tmp);
            j = j + 1;
        }
        y_hat[i] = acc;
        i = i + 1;
    }
    proof {
        assert(polys(y_hat@) =~= mat_t_vec(matrix(a_hat@), polys(u_hat@)));
    }
    y_hat
}

} // verus!
