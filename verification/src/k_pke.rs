//! The public-key encryption scheme K-PKE that the key encapsulation is
//! built on: key generation, encryption and decryption on byte strings.
use crate::Error;
use crate::Q;
use crate::byte_fns::{byte_decode, byte_decode_spec, byte_encode_at, byte_encode_spec, byte_unpack};
use crate::constant_time::wipe;
use crate::helpers::{
    add_polys, add_vecs, compress_poly, compress_vector, decompress_poly, decompress_vector, dot,
    dot_t_prod, g, g_spec, join, mat_t_vec, mat_vec, mat_wf, matrix, mul_mat_t_vec, mul_mat_vec,
    poly_add, polys, prf, prf_spec, vec_add, vec_wf, xof, xof_spec,
};
use crate::ntt::{fsub, gen_zeta_table, is_zeta_table, ntt, ntt_inv, ntt_inv_spec, ntt_spec};
use crate::sampling::{cbd_spec, sample_ntt, sample_ntt_spec, sample_poly_cbd};
use crate::types::{all_wf, poly, Z};
use vstd::arithmetic::power2::*;
use vstd::prelude::*;

verus! {

/// Piece `i` of `b` cut into pieces of `size` bytes.
pub open spec fn chunk(b: Seq<u8>, size: int, i: int) -> Seq<u8> {
    b.subrange(size * i, size * i + size)
}

/// The encodings of the polynomials of `v`, `d` bits a coefficient, one
/// after the other.
pub open spec fn encode_vec(d: nat, v: Seq<Seq<int>>) -> Seq<u8>
    decreases v.len(),
{
    if v.len() == 0 {
        Seq::empty()
    } else {
        encode_vec(d, v.drop_last()) + byte_encode_spec(d, v.last())
    }
}

/// The `k` polynomials that `b` holds, `d` bits a coefficient, one after the
/// other.
pub open spec fn decode_vec(d: nat, k: nat, b: Seq<u8>) -> Seq<Seq<int>> {
    Seq::new(k, |i: int| byte_decode_spec(d, chunk(b, (32 * d) as int, i)))
}

/// Whether every coefficient is below `Q`.
pub open spec fn below_q(f: Seq<int>) -> bool {
    forall|t: int| 0 <= t < f.len() ==> #[trigger] f[t] < 3329
}

/// Whether each of the `k` polynomials that `b` holds, 12 bits a
/// coefficient, has every coefficient below `Q`.
pub open spec fn canonical(k: nat, b: Seq<u8>) -> bool {
    forall|i: int| 0 <= i < k ==> below_q(#[trigger] decode_vec(12, k, b)[i])
}

/// The stream that entry `(i, j)` of the matrix is sampled from: `XOF(rho,
/// j, i)`, the column index first.
pub open spec fn entry_stream(rho: Seq<u8>, i: int, j: int) -> Seq<u8> {
    xof_spec(rho, j as u8, i as u8)
}

/// Whether the stream of each entry of the `k` by `k` matrix of `rho` holds
/// 256 acceptable coefficients within the bytes drawn from it.
pub open spec fn expands(rho: Seq<u8>, k: nat) -> bool {
    forall|i: int, j: int|
        0 <= i < k && 0 <= j < k ==> sample_ntt_spec(#[trigger] entry_stream(rho, i, j)) is Some
}

/// The `k` by `k` matrix of transformed polynomials that `rho` expands to.
pub open spec fn a_hat_spec(rho: Seq<u8>, k: nat) -> Seq<Seq<Seq<int>>> {
    Seq::new(
        k,
        |i: int| Seq::new(k, |j: int| sample_ntt_spec(entry_stream(rho, i, j)).unwrap()),
    )
}

/// The `k` polynomials sampled from the centered binomial distribution of
/// parameter `eta` with the seed `seed` and the counters `n0` to
/// `n0 + k - 1`.
pub open spec fn cbd_vec(k: nat, eta: nat, seed: Seq<u8>, n0: nat) -> Seq<Seq<int>> {
    Seq::new(k, |i: int| cbd_spec(eta, prf_spec(eta, seed, (n0 + i) as u8)))
}

/// The forward transform of each polynomial.
pub open spec fn ntt_vec_spec(v: Seq<Seq<int>>) -> Seq<Seq<int>> {
    v.map_values(|p: Seq<int>| ntt_spec(p))
}

/// The inverse transform of each polynomial.
pub open spec fn ntt_inv_vec_spec(v: Seq<Seq<int>>) -> Seq<Seq<int>> {
    v.map_values(|p: Seq<int>| ntt_inv_spec(p))
}

/// The compression to `d` bits of each polynomial.
pub open spec fn compress_vec(d: nat, v: Seq<Seq<int>>) -> Seq<Seq<int>> {
    v.map_values(|p: Seq<int>| compress_poly(d, p))
}

/// The decompression from `d` bits of each polynomial.
pub open spec fn decompress_vec(d: nat, v: Seq<Seq<int>>) -> Seq<Seq<int>> {
    v.map_values(|p: Seq<int>| decompress_poly(d, p))
}

/// The difference of two polynomials, coefficient by coefficient modulo `Q`.
pub open spec fn poly_sub(a: Seq<int>, b: Seq<int>) -> Seq<int> {
    Seq::new(256, |t: int| fsub(a[t], b[t]))
}

/// The seed `rho` of the matrix that key generation with the seed `d`
/// derives: the first half of `G(d || k)`.
pub open spec fn key_gen_rho(k: nat, d: Seq<u8>) -> Seq<u8> {
    g_spec(d + seq![k as u8]).0
}

/// The key pair `(ek_PKE, dk_PKE)` of `K-PKE.KeyGen(d)`, where the matrix of
/// `key_gen_rho(k, d)` expands.
pub open spec fn k_pke_key_gen_spec(k: nat, eta1: nat, d: Seq<u8>) -> (Seq<u8>, Seq<u8>) {
    let (rho, sigma) = g_spec(d + seq![k as u8]);
    let a_hat = a_hat_spec(rho, k);
    let s_hat = ntt_vec_spec(cbd_vec(k, eta1, sigma, 0));
    let e_hat = ntt_vec_spec(cbd_vec(k, eta1, sigma, k));
    let t_hat = vec_add(mat_vec(a_hat, s_hat), e_hat);
    (encode_vec(12, t_hat) + rho, encode_vec(12, s_hat))
}

/// The ciphertext of `K-PKE.Encrypt(ek_PKE, m, r)`, where `ek_PKE` is
/// canonical and the matrix of its seed expands.
pub open spec fn k_pke_encrypt_spec(
    k: nat,
    eta1: nat,
    eta2: nat,
    du: nat,
    dv: nat,
    ek_pke: Seq<u8>,
    m: Seq<u8>,
    r: Seq<u8>,
) -> Seq<u8> {
    let t_hat = decode_vec(12, k, ek_pke.subrange(0, (384 * k) as int));
    let rho = ek_pke.subrange((384 * k) as int, (384 * k + 32) as int);
    let a_hat = a_hat_spec(rho, k);
    let y_hat = ntt_vec_spec(cbd_vec(k, eta1, r, 0));
    let e1 = cbd_vec(k, eta2, r, k);
    let e2 = cbd_spec(eta2, prf_spec(eta2, r, (2 * k) as u8));
    let u = vec_add(ntt_inv_vec_spec(mat_t_vec(a_hat, y_hat)), e1);
    let mu = decompress_poly(1, byte_decode_spec(1, m));
    let v = poly_add(poly_add(ntt_inv_spec(dot(t_hat, y_hat, k)), e2), mu);
    encode_vec(du, compress_vec(du, u)) + byte_encode_spec(dv, compress_poly(dv, v))
}

/// The message of `K-PKE.Decrypt(dk_PKE, c)`, where `dk_PKE` is canonical.
pub open spec fn k_pke_decrypt_spec(k: nat, du: nat, dv: nat, dk_pke: Seq<u8>, c: Seq<u8>) -> Seq<
    u8,
> {
    let c1 = c.subrange(0, (32 * du * k) as int);
    let c2 = c.subrange((32 * du * k) as int, (32 * du * k + 32 * dv) as int);
    let u = decompress_vec(du, decode_vec(du, k, c1));
    let v = decompress_poly(dv, byte_decode_spec(dv, c2));
    let s_hat = decode_vec(12, k, dk_pke);
    let w = poly_sub(v, ntt_inv_spec(dot(s_hat, ntt_vec_spec(u), k)));
    byte_encode_spec(1, compress_poly(1, w))
}

/// The encoding of `n` polynomials takes `32 d n` bytes.
pub proof fn lemma_encode_vec_len(d: nat, v: Seq<Seq<int>>)
    ensures
        encode_vec(d, v).len() == 32 * d * v.len(),
    decreases v.len(),
{
    if v.len() > 0 {
        lemma_encode_vec_len(d, v.drop_last());
        assert(32 * d * v.len() == 32 * d * (v.len() - 1) + 32 * d) by (nonlinear_arith);
    } else {
        assert(32 * d * 0 == 0);
    }
}

/// Expands `rho` to the `K` by `K` matrix of transformed polynomials: entry
/// `(i, j)` is sampled from the stream `XOF(rho, j, i)`.
pub fn gen_a_hat<const K: usize>(rho: &[u8; 32]) -> (r: Result<[[[Z; 256]; K]; K], Error>)
    requires
        K <= 255,
    ensures
        match r {
            Ok(a) => {
                &&& expands(rho@, K as nat)
                &&& mat_wf(a@)
                &&& matrix(a@) == a_hat_spec(rho@, K as nat)
            },
            Err(e) => e == Error::SamplingExhausted && !expands(rho@, K as nat),
        },
{
    let mut a_hat: [[[Z; 256]; K]; K] = [[[Z(0); 256]; K]; K];
    let mut i: usize = 0;
    while i < K
        invariant
            i <= K,
            K <= 255,
            forall|s: int, t: int|
                0 <= s < i && 0 <= t < K ==> sample_ntt_spec(#[trigger] entry_stream(rho@, s, t))
                    == Some(poly(a_hat@[s]@[t]@)),
            forall|s: int, t: int| 0 <= s < i && 0 <= t < K ==> all_wf(#[trigger] a_hat@[s]@[t]@),
        decreases K - i,
    {
        let mut row: [[Z; 256]; K] = [[Z(0); 256]; K];
        let mut j: usize = 0;
        while j < K
            invariant
                j <= K,
                i < K,
                K <= 255,
                forall|t: int|
                    0 <= t < j ==> sample_ntt_spec(#[trigger] entry_stream(rho@, i as int, t))
                        == Some(poly(row@[t]@)),
                forall|t: int| 0 <= t < j ==> all_wf(#[trigger] row@[t]@),
            decreases K - j,
        {
            let stream = xof(rho, j as u8, i as u8);
            proof {
                assert(stream@ == entry_stream(rho@, i as int, j as int));
            }
            match sample_ntt(stream.as_slice()) {
                Some(p) => {
                    row[j] = p;
                },
                None => {
                    return Err(Error::SamplingExhausted);
                },
            }
            j = j + 1;
        }
        a_hat[i] = row;
        i = i + 1;
    }
    proof {
        assert forall|s: int| 0 <= s < K implies vec_wf(#[trigger] a_hat@[s]@) by {
            assert forall|t: int| 0 <= t < K implies all_wf(#[trigger] a_hat@[s]@[t]@) by {}
        }
        let m = matrix(a_hat@);
        let sp = a_hat_spec(rho@, K as nat);
        assert forall|s: int| 0 <= s < K implies m[s] =~= sp[s] by {
            assert forall|t: int| 0 <= t < K implies m[s][t] == sp[s][t] by {
                assert(sample_ntt_spec(entry_stream(rho@, s, t)) == Some(poly(a_hat@[s]@[t]@)));
            }
        }
        assert(m =~= sp);
    }
    Ok(a_hat)
}

/// Samples `K` polynomials from the centered binomial distribution with the
/// seed `seed` and the counters `n0` to `n0 + K - 1`, for `ETA_64 = 64 eta`.
pub fn sample_vec<const K: usize, const ETA_64: usize>(seed: &[u8; 32], n0: u8) -> (r: [[Z;
    256]; K])
    requires
        ETA_64 == 128 || ETA_64 == 192,
        n0 + K <= 255,
    ensures
        vec_wf(r@),
        polys(r@) == cbd_vec(K as nat, (ETA_64 / 64) as nat, seed@, n0 as nat),
{
    let mut v: [[Z; 256]; K] = [[Z(0); 256]; K];
    let mut i: usize = 0;
    while i < K
        invariant
            i <= K,
            ETA_64 == 128 || ETA_64 == 192,
            n0 + K <= 255,
            forall|t: int| 0 <= t < i ==> all_wf(#[trigger] v@[t]@),
            forall|t: int|
                0 <= t < i ==> poly((#[trigger] v@[t])@) == cbd_spec(
                    (ETA_64 / 64) as nat,
                    prf_spec((ETA_64 / 64) as nat, seed@, (n0 + t) as u8),
                ),
        decreases K - i,
    {
        let mut bytes = prf::<ETA_64>(seed, n0 + i as u8);
        v[i] = sample_poly_cbd(bytes.as_slice());
        wipe(&mut bytes);
        i = i + 1;
    }
    proof {
        assert(polys(v@) =~= cbd_vec(K as nat, (ETA_64 / 64) as nat, seed@, n0 as nat));
    }
    v
}

/// The forward transform of each polynomial of `v`.
pub fn ntt_vec<const K: usize>(v: &[[Z; 256]; K], zetas: &[Z; 256]) -> (r: [[Z; 256]; K])
    requires
        vec_wf(v@),
        is_zeta_table(zetas@),
    ensures
        vec_wf(r@),
        polys(r@) == ntt_vec_spec(polys(v@)),
{
    let mut w: [[Z; 256]; K] = [[Z(0); 256]; K];
    let mut i: usize = 0;
    while i < K
        invariant
            i <= K,
            vec_wf(v@),
            is_zeta_table(zetas@),
            forall|t: int| 0 <= t < i ==> all_wf(#[trigger] w@[t]@),
            forall|t: int| 0 <= t < i ==> poly((#[trigger] w@[t])@) == ntt_spec(poly(v@[t]@)),
        decreases K - i,
    {
        proof {
            assert(all_wf(v@[i as int]@));
        }
        w[i] = ntt(&v[i], zetas);
        i = i + 1;
    }
    proof {
        assert(polys(w@) =~= ntt_vec_spec(polys(v@)));
    }
    w
}

/// The inverse transform of each polynomial of `v`.
pub fn ntt_inv_vec<const K: usize>(v: &[[Z; 256]; K], zetas: &[Z; 256]) -> (r: [[Z; 256]; K])
    requires
        vec_wf(v@),
        is_zeta_table(zetas@),
    ensures
        vec_wf(r@),
        polys(r@) == ntt_inv_vec_spec(polys(v@)),
{
    let mut w: [[Z; 256]; K] = [[Z(0); 256]; K];
    let mut i: usize = 0;
    while i < K
        invariant
            i <= K,
            vec_wf(v@),
            is_zeta_table(zetas@),
            forall|t: int| 0 <= t < i ==> all_wf(#[trigger] w@[t]@),
            forall|t: int|
                0 <= t < i ==> poly((#[trigger] w@[t])@) == ntt_inv_spec(poly(v@[t]@)),
        decreases K - i,
    {
        proof {
            assert(all_wf(v@[i as int]@));
        }
        w[i] = ntt_inv(&v[i], zetas);
        i = i + 1;
    }
    proof {
        assert(polys(w@) =~= ntt_inv_vec_spec(polys(v@)));
    }
    w
}

/// Writes the encodings of the `K` polynomials of `v`, `d` bits a
/// coefficient, one after the other into `out` from `offset` on, and leaves
/// the other bytes as they are.
pub fn encode_vec_at<const K: usize>(d: u32, v: &[[Z; 256]; K], out: &mut [u8], offset: usize)
    requires
        1 <= d <= 12,
        offset + 32 * d * K <= old(out)@.len(),
    ensures
        final(out)@.len() == old(out)@.len(),
        final(out)@.subrange(offset as int, offset + 32 * d * K) == encode_vec(
            d as nat,
            polys(v@),
        ),
        forall|t: int|
            0 <= t < offset || offset + 32 * d * K <= t < old(out)@.len() ==> final(out)@[t]
                == old(out)@[t],
{
    let step: usize = 32 * d as usize;
    let total: usize = out.len();
    let ghost pv = polys(v@);
    let mut i: usize = 0;
    proof {
        assert(32 * d * 0 == 0);
        assert(pv.take(0) =~= Seq::<Seq<int>>::empty());
        assert(out@.subrange(offset as int, offset + 0) =~= encode_vec(d as nat, pv.take(0)));
    }
    while i < K
        invariant
            i <= K,
            1 <= d <= 12,
            step == 32 * d,
            total == out@.len(),
            out@.len() == old(out)@.len(),
            offset + 32 * d * K <= total,
            pv == polys(v@),
            out@.subrange(offset as int, offset + step * i) == encode_vec(
                d as nat,
                pv.take(i as int),
            ),
            forall|t: int|
                0 <= t < offset || offset + step * i <= t < total ==> out@[t] == old(out)@[t],
        decreases K - i,
    {
        proof {
            assert(step * (i + 1) == step * i + step) by (nonlinear_arith);
            assert(step * (i + 1) <= 32 * d * K) by (nonlinear_arith)
                requires
                    i + 1 <= K,
                    step == 32 * d,
            ;
        }
        let ghost before = out@;
        byte_encode_at(d, &v[i], out, offset + step * i);
        proof {
            let lo = offset + step * i;
            let hi = lo + step;
            assert(pv.take(i + 1) =~= pv.take(i as int).push(pv[i as int]));
            assert(pv.take(i + 1).drop_last() =~= pv.take(i as int));
            assert(out@.subrange(offset as int, lo) =~= before.subrange(offset as int, lo));
            assert(out@.subrange(offset as int, hi) =~= out@.subrange(offset as int, lo)
                + out@.subrange(lo, hi));
        }
        i = i + 1;
    }
    proof {
        assert(step * K == 32 * d * K) by (nonlinear_arith)
            requires
                step == 32 * d,
        ;
        assert(pv.take(K as int) =~= pv);
    }
}

/// Reads `K` polynomials of `d` bits a coefficient, for `d < 12`, off the
/// `32 d K` bytes of `b`.
pub fn decode_vec_small<const K: usize>(d: u32, b: &[u8]) -> (r: [[Z; 256]; K])
    requires
        1 <= d <= 11,
        b@.len() == 32 * d * K,
    ensures
        polys(r@) == decode_vec(d as nat, K as nat, b@),
        forall|i: int, t: int|
            0 <= i < K && 0 <= t < 256 ==> (#[trigger] r@[i]@[t])@ < pow2(d as nat),
{
    let step: usize = 32 * d as usize;
    let total: usize = b.len();
    let mut v: [[Z; 256]; K] = [[Z(0); 256]; K];
    let mut i: usize = 0;
    while i < K
        invariant
            i <= K,
            1 <= d <= 11,
            step == 32 * d,
            total == b@.len(),
            b@.len() == 32 * d * K,
            forall|s: int|
                0 <= s < i ==> poly((#[trigger] v@[s])@) == byte_decode_spec(
                    d as nat,
                    chunk(b@, step as int, s),
                ),
            forall|s: int, t: int|
                0 <= s < i && 0 <= t < 256 ==> (#[trigger] v@[s]@[t])@ < pow2(d as nat),
        decreases K - i,
    {
        proof {
            assert(step * (i + 1) == step * i + step) by (nonlinear_arith);
            assert(step * (i + 1) <= 32 * d * K) by (nonlinear_arith)
                requires
                    i + 1 <= K,
                    step == 32 * d,
            ;
        }
        let piece = &b[step * i..step * i + step];
        let p = byte_unpack(d, piece);
        v[i] = p;
        i = i + 1;
    }
    proof {
        assert(polys(v@) =~= decode_vec(d as nat, K as nat, b@));
    }
    v
}

/// Reads `K` polynomials of 12 bits a coefficient off the `384 K` bytes of
/// `b`, and refuses them where a coefficient is not below `Q`.
pub fn decode_vec_12<const K: usize>(b: &[u8]) -> (r: Result<[[Z; 256]; K], Error>)
    requires
        b@.len() == 384 * K,
    ensures
        match r {
            Ok(v) => {
                &&& canonical(K as nat, b@)
                &&& vec_wf(v@)
                &&& polys(v@) == decode_vec(12, K as nat, b@)
            },
            Err(e) => e == Error::InvalidEncoding && !canonical(K as nat, b@),
        },
{
    let total: usize = b.len();
    let mut v: [[Z; 256]; K] = [[Z(0); 256]; K];
    let mut i: usize = 0;
    while i < K
        invariant
            i <= K,
            total == b@.len(),
            b@.len() == 384 * K,
            forall|s: int| 0 <= s < i ==> all_wf(#[trigger] v@[s]@),
            forall|s: int|
                0 <= s < i ==> poly((#[trigger] v@[s])@) == byte_decode_spec(12, chunk(b@, 384, s)),
        decreases K - i,
    {
        let piece = &b[384 * i..384 * i + 384];
        proof {
            assert(piece@ == chunk(b@, 384, i as int));
            assert(decode_vec(12, K as nat, b@)[i as int] == byte_decode_spec(12, piece@));
        }
        match byte_decode(12, piece) {
            Ok(p) => {
                proof {
                    assert forall|t: int| 0 <= t < 256 implies (#[trigger] p@[t]).wf() by {
                        assert(0 <= p@[t]@ < 3329);
                    }
                }
                v[i] = p;
            },
            Err(e) => {
                proof {
                    let t = choose|t: int|
                        0 <= t < 256 && #[trigger] byte_decode_spec(12, piece@)[t] >= Q;
                    assert(!below_q(decode_vec(12, K as nat, b@)[i as int]));
                }
                return Err(Error::InvalidEncoding);
            },
        }
        i = i + 1;
    }
    proof {
        assert(polys(v@) =~= decode_vec(12, K as nat, b@));
        assert forall|s: int| 0 <= s < K implies below_q(
            #[trigger] decode_vec(12, K as nat, b@)[s],
        ) by {
            let f = decode_vec(12, K as nat, b@)[s];
            assert(f == poly(v@[s]@));
            assert forall|t: int| 0 <= t < f.len() implies #[trigger] f[t] < 3329 by {
                assert(v@[s]@[t].wf());
            }
        }
    }
    Ok(v)
}

/// Copies `src` into `out` from `offset` on, and leaves the other bytes as
/// they are.
pub fn copy_at(out: &mut [u8], offset: usize, src: &[u8])
    requires
        offset + src@.len() <= old(out)@.len(),
    ensures
        final(out)@.len() == old(out)@.len(),
        final(out)@.subrange(offset as int, offset + src@.len()) == src@,
        forall|t: int|
            0 <= t < offset || offset + src@.len() <= t < old(out)@.len() ==> final(out)@[t]
                == old(out)@[t],
{
    let n: usize = src.len();
    let total: usize = out.len();
    let mut i: usize = 0;
    while i < n
        invariant
            i <= n,
            n == src@.len(),
            total == out@.len(),
            out@.len() == old(out)@.len(),
            offset + n <= total,
            forall|t: int| 0 <= t < i ==> out@[offset + t] == src@[t],
            forall|t: int| 0 <= t < offset || offset + i <= t < total ==> out@[t] == old(out)@[t],
        decreases n - i,
    {
        out[offset + i] = src[i];
        i = i + 1;
    }
    proof {
        assert(out@.subrange(offset as int, offset + n) =~= src@);
    }
}

/// The compression to `d` bits of each polynomial of `v`.
pub fn compress_each<const K: usize>(d: u32, v: &[[Z; 256]; K]) -> (r: [[Z; 256]; K])
    requires
        1 <= d <= 11,
        vec_wf(v@),
    ensures
        polys(r@) == compress_vec(d as nat, polys(v@)),
{
    let mut w: [[Z; 256]; K] = [[Z(0); 256]; K];
    let mut i: usize = 0;
    while i < K
        invariant
            i <= K,
            1 <= d <= 11,
            vec_wf(v@),
            forall|t: int|
                0 <= t < i ==> poly((#[trigger] w@[t])@) == compress_poly(d as nat, poly(v@[t]@)),
        decreases K - i,
    {
        let mut p: [Z; 256] = v[i];
        proof {
            assert(all_wf(v@[i as int]@));
        }
        compress_vector(d, &mut p);
        w[i] = p;
        i = i + 1;
    }
    proof {
        assert(polys(w@) =~= compress_vec(d as nat, polys(v@)));
    }
    w
}

/// The decompression from `d` bits of each polynomial of `v`.
pub fn decompress_each<const K: usize>(d: u32, v: &[[Z; 256]; K]) -> (r: [[Z; 256]; K])
    requires
        1 <= d <= 11,
        forall|i: int, t: int|
            0 <= i < K && 0 <= t < 256 ==> (#[trigger] v@[i]@[t])@ < pow2(d as nat),
    ensures
        vec_wf(r@),
        polys(r@) == decompress_vec(d as nat, polys(v@)),
{
    let mut w: [[Z; 256]; K] = [[Z(0); 256]; K];
    let mut i: usize = 0;
    while i < K
        invariant
            i <= K,
            1 <= d <= 11,
            forall|s: int, t: int|
                0 <= s < K && 0 <= t < 256 ==> (#[trigger] v@[s]@[t])@ < pow2(d as nat),
            forall|t: int| 0 <= t < i ==> all_wf(#[trigger] w@[t]@),
            forall|t: int|
                0 <= t < i ==> poly((#[trigger] w@[t])@) == decompress_poly(
                    d as nat,
                    poly(v@[t]@),
                ),
        decreases K - i,
    {
        let mut p: [Z; 256] = v[i];
        proof {
            assert forall|t: int| 0 <= t < 256 implies (#[trigger] p@[t])@ < pow2(d as nat) by {
                assert(v@[i as int]@[t]@ < pow2(d as nat));
            }
        }
        decompress_vector(d, &mut p);
        w[i] = p;
        i = i + 1;
    }
    proof {
        assert(polys(w@) =~= decompress_vec(d as nat, polys(v@)));
    }
    w
}

/// `K-PKE.KeyGen(d)`: writes the encryption key into `ek_pke` and the
/// decryption key into the first `384 K` bytes of `dk_pke`.
///
/// The seed `d` and the byte `K` give two seeds, `rho` and `sigma`; `rho`
/// expands to the matrix, `sigma` to the secret vector and the error vector.
/// Where the matrix cannot be sampled, nothing is written.
pub fn k_pke_key_gen<const K: usize, const ETA1_64: usize>(
    d: [u8; 32],
    ek_pke: &mut [u8],
    dk_pke: &mut [u8],
) -> (r: Result<(), Error>)
    requires
        2 <= K <= 4,
        ETA1_64 == 128 || ETA1_64 == 192,
        old(ek_pke)@.len() == 384 * K + 32,
        old(dk_pke)@.len() >= 384 * K,
    ensures
        final(ek_pke)@.len() == old(ek_pke)@.len(),
        final(dk_pke)@.len() == old(dk_pke)@.len(),
        match r {
            Ok(()) => {
                &&& expands(key_gen_rho(K as nat, d@), K as nat)
                &&& final(ek_pke)@ == k_pke_key_gen_spec(K as nat, (ETA1_64 / 64) as nat, d@).0
                &&& final(dk_pke)@.subrange(0, 384 * K) == k_pke_key_gen_spec(
                    K as nat,
                    (ETA1_64 / 64) as nat,
                    d@,
                ).1
                &&& forall|t: int|
                    384 * K <= t < old(dk_pke)@.len() ==> final(dk_pke)@[t] == old(dk_pke)@[t]
            },
            Err(e) => {
                &&& e == Error::SamplingExhausted
                &&& !expands(key_gen_rho(K as nat, d@), K as nat)
                &&& final(ek_pke)@ == old(ek_pke)@
                &&& final(dk_pke)@ == old(dk_pke)@
            },
        },
{
    let k_byte: [u8; 1] = [K as u8];
    proof {
        assert(d@ + k_byte@ =~= d@ + seq![K as nat as u8]);
    }
    let mut seed: [u8; 33] = join::<33>(d.as_slice(), k_byte.as_slice());
    let (rho, mut sigma) = g(seed.as_slice());
    wipe(&mut seed);
    let a_hat = match gen_a_hat::<K>(&rho) {
        Ok(a) => a,
        Err(e) => {
            wipe(&mut sigma);
            return Err(e);
        },
    };
    let zetas = gen_zeta_table();
    let s = sample_vec::<K, ETA1_64>(&sigma, 0);
    let e = sample_vec::<K, ETA1_64>(&sigma, K as u8);
    wipe(&mut sigma);
    let s_hat = ntt_vec(&s, &zetas);
    let e_hat = ntt_vec(&e, &zetas);
    let as_hat = mul_mat_vec(&a_hat, &s_hat, &zetas);
    let t_hat = add_vecs(&as_hat, &e_hat);
    encode_vec_at(12, &t_hat, ek_pke, 0);
    let ghost ek_mid = ek_pke@;
    copy_at(ek_pke, 384 * K, rho.as_slice());
    encode_vec_at(12, &s_hat, dk_pke, 0);
    proof {
        assert(ek_pke@.subrange(0, 384 * K) =~= ek_mid.subrange(0, 32 * 12 * K));
        assert(ek_pke@ =~= ek_pke@.subrange(0, 384 * K) + ek_pke@.subrange(
            384 * K,
            384 * K + 32,
        ));
        assert(dk_pke@.subrange(0, 384 * K) =~= dk_pke@.subrange(0, 0 + 32 * 12 * K));
    }
    Ok(())
}

/// `K-PKE.Encrypt(ek_PKE, m, r)`: writes the ciphertext into `ct`.
///
/// The polynomials of `ek_pke` are read with the modulus check, its seed
/// expands to the matrix, and `r` to three noise terms. Where the key is not
/// canonical or the matrix cannot be sampled, nothing is written.
pub fn k_pke_encrypt<const K: usize, const ETA1_64: usize, const ETA2_64: usize>(
    du: u32,
    dv: u32,
    ek_pke: &[u8],
    m: &[u8],
    r: &[u8; 32],
    ct: &mut [u8],
) -> (res: Result<(), Error>)
    requires
        2 <= K <= 4,
        ETA1_64 == 128 || ETA1_64 == 192,
        ETA2_64 == 128 || ETA2_64 == 192,
        1 <= du <= 11,
        1 <= dv <= 11,
        ek_pke@.len() == 384 * K + 32,
        m@.len() == 32,
        old(ct)@.len() == 32 * du * K + 32 * dv,
    ensures
        final(ct)@.len() == old(ct)@.len(),
        match res {
            Ok(()) => {
                &&& canonical(K as nat, ek_pke@.subrange(0, 384 * K))
                &&& expands(ek_pke@.subrange(384 * K, 384 * K + 32), K as nat)
                &&& final(ct)@ == k_pke_encrypt_spec(
                    K as nat,
                    (ETA1_64 / 64) as nat,
                    (ETA2_64 / 64) as nat,
                    du as nat,
                    dv as nat,
                    ek_pke@,
                    m@,
                    r@,
                )
            },
            Err(e) => {
                &&& final(ct)@ == old(ct)@
                &&& e == Error::InvalidEncoding || e == Error::SamplingExhausted
                &&& e == Error::InvalidEncoding <==> !canonical(
                    K as nat,
                    ek_pke@.subrange(0, 384 * K),
                )
                &&& e == Error::SamplingExhausted ==> !expands(
                    ek_pke@.subrange(384 * K, 384 * K + 32),
                    K as nat,
                )
            },
        },
{
    let t_hat = match decode_vec_12::<K>(&ek_pke[0..384 * K]) {
        Ok(t) => t,
        Err(e) => {
            return Err(e);
        },
    };
    let mut rho: [u8; 32] = [0u8; 32];
    let mut i: usize = 0;
    while i < 32
        invariant
            i <= 32,
            2 <= K <= 4,
            ek_pke@.len() == 384 * K + 32,
            forall|t: int| 0 <= t < i ==> rho@[t] == ek_pke@[384 * K + t],
        decreases 32 - i,
    {
        rho[i] = ek_pke[384 * K + i];
        i = i + 1;
    }
    proof {
        assert(rho@ =~= ek_pke@.subrange(384 * K, 384 * K + 32));
    }
    let a_hat = match gen_a_hat::<K>(&rho) {
        Ok(a) => a,
        Err(e) => {
            return Err(e);
        },
    };
    let zetas = gen_zeta_table();
    let y = sample_vec::<K, ETA1_64>(r, 0);
    let e1 = sample_vec::<K, ETA2_64>(r, K as u8);
    let mut e2_bytes = prf::<ETA2_64>(r, 2 * K as u8);
    let e2 = sample_poly_cbd(e2_bytes.as_slice());
    wipe(&mut e2_bytes);
    let y_hat = ntt_vec(&y, &zetas);
    let aty = mul_mat_t_vec(&a_hat, &y_hat, &zetas);
    let aty_inv = ntt_inv_vec(&aty, &zetas);
    let u = add_vecs(&aty_inv, &e1);
    let mut mu = byte_unpack(1, m);
    proof {
        lemma2_to64();
    }
    decompress_vector(1, &mut mu);
    let ty = dot_t_prod(&t_hat, &y_hat, &zetas);
    let ty_inv = ntt_inv(&ty, &zetas);
    let v0 = add_polys(&ty_inv, &e2);
    let mut v = add_polys(&v0, &mu);
    let cu = compress_each(du, &u);
    let step: usize = 32 * du as usize;
    proof {
        assert(step * K == 32 * du * K) by (nonlinear_arith)
            requires
                step == 32 * du,
        ;
        assert(32 * du * K <= 32 * 11 * 4) by (nonlinear_arith)
            requires
                du <= 11,
                K <= 4,
        ;
    }
    encode_vec_at(du, &cu, ct, 0);
    let ghost ct_mid = ct@;
    compress_vector(dv, &mut v);
    byte_encode_at(dv, &v, ct, step * K);
    proof {
        let n1 = 32 * du * K;
        assert(ct@.subrange(0, n1) =~= ct_mid.subrange(0, 0 + n1));
        assert(ct@ =~= ct@.subrange(0, n1) + ct@.subrange(n1, n1 + 32 * dv));
    }
    Ok(())
}

/// `K-PKE.Decrypt(dk_PKE, c)`: the message of 32 bytes.
///
/// Every byte string of the right length is a ciphertext: its polynomials are
/// read without a check. The secret vector is read with the modulus check,
/// and refused where a coefficient is not below `Q`.
pub fn k_pke_decrypt<const K: usize>(du: u32, dv: u32, dk_pke: &[u8], ct: &[u8]) -> (res: Result<
    [u8; 32],
    Error,
>)
    requires
        2 <= K <= 4,
        1 <= du <= 11,
        1 <= dv <= 11,
        dk_pke@.len() == 384 * K,
        ct@.len() == 32 * du * K + 32 * dv,
    ensures
        match res {
            Ok(m) => {
                &&& canonical(K as nat, dk_pke@)
                &&& m@ == k_pke_decrypt_spec(K as nat, du as nat, dv as nat, dk_pke@, ct@)
            },
            Err(e) => e == Error::InvalidEncoding && !canonical(K as nat, dk_pke@),
        },
{
    let step: usize = 32 * du as usize;
    proof {
        assert(step * K == 32 * du * K) by (nonlinear_arith)
            requires
                step == 32 * du,
        ;
        assert(32 * du * K <= 32 * 11 * 4) by (nonlinear_arith)
            requires
                du <= 11,
                K <= 4,
        ;
    }
    let n1: usize = step * K;
    let c1 = &ct[0..n1];
    let c2 = &ct[n1..n1 + 32 * dv as usize];
    let u0 = decode_vec_small::<K>(du, c1);
    let u = decompress_each(du, &u0);
    let mut v = byte_unpack(dv, c2);
    decompress_vector(dv, &mut v);
    let s_hat = match decode_vec_12::<K>(dk_pke) {
        Ok(s) => s,
        Err(e) => {
            return Err(e);
        },
    };
    let zetas = gen_zeta_table();
    let ntt_u = ntt_vec(&u, &zetas);
    let st_ntt_u = dot_t_prod(&s_hat, &ntt_u, &zetas);
    let yy = ntt_inv(&st_ntt_u, &zetas);
    let mut w: [Z; 256] = [Z(0); 256];
    let mut i: usize = 0;
    while i < 256
        invariant
            i <= 256,
            all_wf(v@),
            all_wf(yy@),
            forall|t: int| 0 <= t < i ==> (#[trigger] w@[t]).wf(),
            forall|t: int| 0 <= t < i ==> (#[trigger] w@[t])@ == fsub(v@[t]@, yy@[t]@),
        decreases 256 - i,
    {
        w[i] = v[i].sub(yy[i]);
        i = i + 1;
    }
    proof {
        assert(poly(w@) =~= poly_sub(poly(v@), poly(yy@)));
    }
    compress_vector(1, &mut w);
    let mut m: [u8; 32] = [0u8; 32];
    byte_encode_at(1, &w, &mut m, 0);
    proof {
        assert(m@.subrange(0, 32) =~= m@);
    }
    Ok(m)
}

} // verus!
