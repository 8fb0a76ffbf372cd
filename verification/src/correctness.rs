//! Decryption undoes encryption wherever the noise is small.
//!
//! The polynomial that decryption rounds to a message is the encoded
//! message plus a noise made of the secret, the errors and the losses of
//! compression. Where every coefficient of that noise is nearer to zero than
//! a quarter of `Q`, rounding gives the message back, and with it
//! decapsulation gives the shared secret that was encapsulated.
use crate::byte_fns::{
    byte_decode_spec, byte_encode_spec, ints, lemma_decode_of_encode, lemma_encode_of_decode,
};
use crate::helpers::{
    compress_poly, compress_spec, decompress_poly, decompress_spec, dot, g_spec, h_spec,
    lemma_pow2_small, mat_t_vec, mat_vec, poly_add, prf_spec, vec_add, zero_poly,
};
use crate::k_pke::{
    a_hat_spec, cbd_vec, compress_vec, decode_vec, decompress_vec, encode_vec,
    k_pke_decrypt_spec, k_pke_encrypt_spec, k_pke_key_gen_spec, key_gen_rho,
    lemma_encode_vec_len, ntt_inv_vec_spec, ntt_vec_spec, poly_sub,
};
use crate::keys::{lemma_encode_vec_chunk, lemma_encoding_canonical};
use crate::ml_kem::{
    dk_ek, dk_hash, lemma_decaps_of_encaps, ml_kem_decaps_spec, ml_kem_encaps_spec,
    ml_kem_key_gen_spec,
};
use crate::ntt::{
    bitrev8, inv_from, is_poly, lemma_ntt_is_poly, multiply_ntts_spec, ntt_inv_spec, ntt_spec,
};
use crate::ntt_laws::{lemma_ntt_inv_of_ntt, lemma_ntt_of_ntt_inv};
use crate::ntt_meaning::lemma_ntt_is_evaluation;
use crate::ntt_product::{
    eqm, lemma_eqm_add, lemma_eqm_mod, lemma_ring_mul_by_transforms, lemma_zsum_linear,
    lemma_zsum_zero, ring_mul,
};
use crate::radix::{digits_in_range, le_value};
use crate::ring::{
    lemma_add_assoc, lemma_add_comm, lemma_dot_add_left, lemma_dot_add_right, lemma_transpose,
};
use crate::sampling::cbd_spec;
use vstd::arithmetic::div_mod::*;
use vstd::arithmetic::power2::*;
use vstd::prelude::*;

verus! {

/// The transform of a sum is the sum of the transforms.
pub proof fn lemma_ntt_add(a: Seq<int>, b: Seq<int>)
    requires
        is_poly(a),
        is_poly(b),
    ensures
        ntt_spec(poly_add(a, b)) == poly_add(ntt_spec(a), ntt_spec(b)),
{
    let s = poly_add(a, b);
    let l = ntt_spec(s);
    let r = poly_add(ntt_spec(a), ntt_spec(b));
    lemma_ntt_is_poly(s);
    assert forall|t: int| 0 <= t < 256 implies l[t] == r[t] by {
        let i = t / 2;
        let bb = t % 2;
        let e = bitrev8((128 + i) as u8) as nat;
        lemma_ntt_is_evaluation(s, i, bb);
        lemma_ntt_is_evaluation(a, i, bb);
        lemma_ntt_is_evaluation(b, i, bb);
        assert forall|rr: int| 0 <= rr < 128 implies eqm(
            #[trigger] s[bb + 2 * rr],
            a[bb + 2 * rr] + 1 * b[bb + 2 * rr],
        ) by {
            lemma_eqm_mod(a[bb + 2 * rr] + b[bb + 2 * rr]);
        }
        lemma_zsum_linear(s, bb, a, bb, 1, b, bb, e, 128);
        lemma_small_mod(l[t] as nat, 3329);
    }
    assert(l =~= r);
}

/// The inverse transform gives coefficients in `[0, Q)`.
pub proof fn lemma_ntt_inv_is_poly(x: Seq<int>)
    ensures
        is_poly(ntt_inv_spec(x)),
{
    reveal_with_fuel(inv_from, 8);
    let g = inv_from(x, 2);
    assert(g.len() == 256);
}

/// The inverse transform of a sum is the sum of the inverse transforms.
pub proof fn lemma_ntt_inv_add(x: Seq<int>, y: Seq<int>)
    requires
        is_poly(x),
        is_poly(y),
    ensures
        ntt_inv_spec(poly_add(x, y)) == poly_add(ntt_inv_spec(x), ntt_inv_spec(y)),
{
    let a = ntt_inv_spec(x);
    let b = ntt_inv_spec(y);
    lemma_ntt_inv_is_poly(x);
    lemma_ntt_inv_is_poly(y);
    lemma_ntt_of_ntt_inv(x);
    lemma_ntt_of_ntt_inv(y);
    lemma_ntt_add(a, b);
    lemma_ntt_inv_of_ntt(poly_add(a, b));
}

/// What was taken away can be put back: `(a - b) + b = a`.
pub proof fn lemma_sub_add(a: Seq<int>, b: Seq<int>)
    requires
        is_poly(a),
    ensures
        poly_add(b, poly_sub(a, b)) == a,
{
    let l = poly_add(b, poly_sub(a, b));
    assert forall|t: int| 0 <= t < 256 implies l[t] == a[t] by {
        lemma_eqm_mod(a[t] - b[t]);
        lemma_eqm_add(b[t], b[t], (a[t] - b[t]) % 3329, a[t] - b[t]);
        lemma_small_mod(a[t] as nat, 3329);
    }
    assert(l =~= a);
}

/// The decompression of a value of `d` bits lies in `[0, Q)`.
pub proof fn lemma_decompress_range(d: nat, y: int)
    requires
        1 <= d <= 11,
        0 <= y < pow2(d),
    ensures
        0 <= decompress_spec(d, y) < 3329,
{
    lemma_pow2_small(d);
    let p = pow2(d) as int;
    assert(3329 * y + p - 1 < 3329 * p);
    lemma_multiply_divide_lt(3329 * y + p - 1, p, 3329);
    lemma_div_pos_is_pos(3329 * y + p - 1, p);
}

/// Compression gives values of `d` bits, and decompression takes them back
/// to polynomials with coefficients in `[0, Q)`.
pub proof fn lemma_compress_ranges(d: nat, f: Seq<int>)
    requires
        1 <= d <= 11,
        f.len() == 256,
    ensures
        compress_poly(d, f).len() == 256,
        digits_in_range(compress_poly(d, f), d),
        is_poly(decompress_poly(d, compress_poly(d, f))),
{
    lemma_pow2_small(d);
    let c = compress_poly(d, f);
    assert forall|i: int| 0 <= i < 256 implies 0 <= #[trigger] c[i] < pow2(d) by {
        lemma_mod_bound((f[i] * pow2(d) + 1664) / 3329, pow2(d) as int);
    }
    let u = decompress_poly(d, c);
    assert forall|i: int| 0 <= i < 256 implies 0 <= #[trigger] u[i] < 3329 by {
        lemma_decompress_range(d, c[i]);
    }
}

/// The number in `(-Q / 2, Q / 2]` that is `x` modulo `Q`.
pub open spec fn centered(x: int) -> int {
    if x % 3329 > 1664 {
        x % 3329 - 3329
    } else {
        x % 3329
    }
}

/// Whether every coefficient is nearer to zero, modulo `Q`, than a quarter
/// of `Q`.
pub open spec fn small(n: Seq<int>) -> bool {
    forall|t: int| 0 <= t < 256 ==> -832 < #[trigger] centered(n[t]) < 832
}

/// Rounding to one bit gives the bit back where the noise is small: a
/// coefficient that is `Decompress_1(bit)` plus a noise nearer to zero than
/// a quarter of `Q` compresses to `bit`.
pub proof fn lemma_round_to_bit(bit: int, w: int, n: int)
    requires
        bit == 0 || bit == 1,
        0 <= w < 3329,
        eqm(w, decompress_spec(1, bit) + n),
        -832 < centered(n) < 832,
    ensures
        compress_spec(1, w) == bit,
{
    lemma2_to64();
    let mu = decompress_spec(1, bit);
    assert(mu == 1665 * bit);
    let c = centered(n);
    lemma_eqm_mod(n);
    assert(eqm(n, c)) by {
        if n % 3329 > 1664 {
            lemma_mod_multiples_vanish(-1, n % 3329, 3329);
        }
    }
    lemma_eqm_add(mu, mu, n, c);
    lemma_small_mod(w as nat, 3329);
    // w is mu + c, or that plus or minus Q
    let x = mu + c;
    assert(w == x % 3329);
    if x < 0 {
        lemma_mod_multiples_vanish(1, x, 3329);
        lemma_small_mod((x + 3329) as nat, 3329);
        assert(w == x + 3329);
    } else if x >= 3329 {
        lemma_mod_multiples_vanish(-1, x, 3329);
        lemma_small_mod((x - 3329) as nat, 3329);
        assert(w == x - 3329);
    } else {
        lemma_small_mod(x as nat, 3329);
        assert(w == x);
    }
    assert(compress_spec(1, w) == ((w * 2 + 1664) / 3329) % 2);
}

/// The difference of two vectors of polynomials, entry by entry.
pub open spec fn vec_sub(a: Seq<Seq<int>>, b: Seq<Seq<int>>) -> Seq<Seq<int>> {
    Seq::new(a.len(), |i: int| poly_sub(a[i], b[i]))
}

/// Whether `v` holds `k` polynomials with coefficients in `[0, Q)`.
pub open spec fn is_vec(v: Seq<Seq<int>>, k: nat) -> bool {
    &&& v.len() == k
    &&& forall|i: int| 0 <= i < k ==> is_poly(#[trigger] v[i])
}

/// The polynomial that decryption rounds, for a key and a ciphertext given by
/// their polynomials: `v' - s^T u'`.
pub open spec fn rounded(s_hat: Seq<Seq<int>>, up: Seq<Seq<int>>, vp: Seq<int>, k: nat) -> Seq<
    int,
> {
    poly_sub(vp, ntt_inv_spec(dot(s_hat, ntt_vec_spec(up), k)))
}

/// The first part of a ciphertext before compression:
/// `u = NTT^-1(A^T y) + e1`.
pub open spec fn plain_u(a_hat: Seq<Seq<Seq<int>>>, y_hat: Seq<Seq<int>>, e1: Seq<Seq<int>>) -> Seq<
    Seq<int>,
> {
    vec_add(ntt_inv_vec_spec(mat_t_vec(a_hat, y_hat)), e1)
}

/// The second part of a ciphertext before compression:
/// `v = NTT^-1(t^T y) + e2 + mu`, for `t = A s + e`.
pub open spec fn plain_v(
    a_hat: Seq<Seq<Seq<int>>>,
    s_hat: Seq<Seq<int>>,
    e_hat: Seq<Seq<int>>,
    y_hat: Seq<Seq<int>>,
    e2: Seq<int>,
    mu: Seq<int>,
    k: nat,
) -> Seq<int> {
    poly_add(
        poly_add(ntt_inv_spec(dot(vec_add(mat_vec(a_hat, s_hat), e_hat), y_hat, k)), e2),
        mu,
    )
}

/// The noise of a decryption: `e^T y + e2 + c_v - s^T (e1 + c_u)`, where
/// `c_u` and `c_v` are what compression and decompression changed of `u` and
/// `v`. The products of the ring are taken by way of the transform.
pub open spec fn noise_of(
    a_hat: Seq<Seq<Seq<int>>>,
    s_hat: Seq<Seq<int>>,
    e_hat: Seq<Seq<int>>,
    y_hat: Seq<Seq<int>>,
    e1: Seq<Seq<int>>,
    e2: Seq<int>,
    mu: Seq<int>,
    up: Seq<Seq<int>>,
    vp: Seq<int>,
    k: nat,
) -> Seq<int> {
    let cu = vec_sub(up, plain_u(a_hat, y_hat, e1));
    let cv = poly_sub(vp, plain_v(a_hat, s_hat, e_hat, y_hat, e2, mu, k));
    poly_sub(
        poly_add(poly_add(ntt_inv_spec(dot(e_hat, y_hat, k)), e2), cv),
        ntt_inv_spec(dot(s_hat, ntt_vec_spec(vec_add(e1, cu)), k)),
    )
}

/// The transform of what decryption reads as `u'`: `A^T y` plus the
/// transform of `e1 + c_u`.
pub proof fn lemma_transform_of_up(
    a_hat: Seq<Seq<Seq<int>>>,
    y_hat: Seq<Seq<int>>,
    e1: Seq<Seq<int>>,
    up: Seq<Seq<int>>,
    k: nat,
)
    requires
        a_hat.len() == k,
        is_vec(y_hat, k),
        is_vec(e1, k),
        is_vec(up, k),
    ensures
        ntt_vec_spec(up) == vec_add(
            mat_t_vec(a_hat, y_hat),
            ntt_vec_spec(vec_add(e1, vec_sub(up, plain_u(a_hat, y_hat, e1)))),
        ),
{
    let mt = mat_t_vec(a_hat, y_hat);
    let u = plain_u(a_hat, y_hat, e1);
    let cu = vec_sub(up, u);
    let x = ntt_vec_spec(vec_add(e1, cu));
    let r = vec_add(mt, x);
    assert forall|j: int| 0 <= j < k implies #[trigger] ntt_vec_spec(up)[j] == r[j] by {
        let uj = u[j];
        let inv = ntt_inv_spec(mt[j]);
        assert(is_poly(up[j]));
        assert(is_poly(e1[j]));
        assert(is_poly(mt[j]));
        lemma_ntt_inv_is_poly(mt[j]);
        assert(uj == poly_add(inv, e1[j]));
        // u' = u + c_u = (inv + e1) + c_u = inv + (e1 + c_u)
        lemma_sub_add(up[j], uj);
        lemma_add_comm(uj, cu[j]);
        lemma_add_assoc(inv, e1[j], cu[j]);
        lemma_add_comm(poly_add(inv, e1[j]), cu[j]);
        assert(up[j] == poly_add(inv, poly_add(e1[j], cu[j])));
        lemma_ntt_add(inv, poly_add(e1[j], cu[j]));
        lemma_ntt_of_ntt_inv(mt[j]);
        assert(vec_add(e1, cu)[j] == poly_add(e1[j], cu[j]));
    }
    assert(ntt_vec_spec(up) =~= r);
}

/// A sum of products of entries has coefficients in `[0, Q)`.
pub proof fn lemma_dot_is_poly(u: Seq<Seq<int>>, v: Seq<Seq<int>>, n: nat)
    ensures
        is_poly(dot(u, v, n)),
{
}

/// The three polynomials of a decryption by the inverse transforms of three
/// sums: `B = (A s)^T y`, `E = e^T y` and `R = s^T (e1 + c_u)`.
pub proof fn lemma_decryption_parts(
    a_hat: Seq<Seq<Seq<int>>>,
    s_hat: Seq<Seq<int>>,
    e_hat: Seq<Seq<int>>,
    y_hat: Seq<Seq<int>>,
    e1: Seq<Seq<int>>,
    e2: Seq<int>,
    mu: Seq<int>,
    up: Seq<Seq<int>>,
    vp: Seq<int>,
    k: nat,
)
    requires
        a_hat.len() == k,
        forall|i: int| 0 <= i < k ==> (#[trigger] a_hat[i]).len() == k,
        is_vec(s_hat, k),
        is_vec(e_hat, k),
        is_vec(y_hat, k),
        is_vec(e1, k),
        is_vec(up, k),
    ensures
        ({
            let cu = vec_sub(up, plain_u(a_hat, y_hat, e1));
            let ib = ntt_inv_spec(dot(mat_vec(a_hat, s_hat), y_hat, k));
            let ie = ntt_inv_spec(dot(e_hat, y_hat, k));
            let ir = ntt_inv_spec(dot(s_hat, ntt_vec_spec(vec_add(e1, cu)), k));
            let v = plain_v(a_hat, s_hat, e_hat, y_hat, e2, mu, k);
            &&& v == poly_add(poly_add(poly_add(ib, ie), e2), mu)
            &&& rounded(s_hat, up, vp, k) == poly_sub(vp, poly_add(ib, ir))
            &&& noise_of(a_hat, s_hat, e_hat, y_hat, e1, e2, mu, up, vp, k) == poly_sub(
                poly_add(poly_add(ie, e2), poly_sub(vp, v)),
                ir,
            )
        }),
{
    let mt = mat_t_vec(a_hat, y_hat);
    let cu = vec_sub(up, plain_u(a_hat, y_hat, e1));
    let x = ntt_vec_spec(vec_add(e1, cu));
    let b = dot(mat_vec(a_hat, s_hat), y_hat, k);
    let e = dot(e_hat, y_hat, k);
    let r = dot(s_hat, x, k);
    // s^T NTT(u') = B + R
    lemma_transform_of_up(a_hat, y_hat, e1, up, k);
    lemma_dot_add_right(s_hat, mt, x, k);
    lemma_transpose(a_hat, s_hat, y_hat, k);
    assert(dot(s_hat, ntt_vec_spec(up), k) == poly_add(b, r));
    // t^T y = B + E
    lemma_dot_add_left(mat_vec(a_hat, s_hat), e_hat, y_hat, k);
    assert(dot(vec_add(mat_vec(a_hat, s_hat), e_hat), y_hat, k) == poly_add(b, e));
    // the inverse transforms of the two sums
    lemma_dot_is_poly(mat_vec(a_hat, s_hat), y_hat, k);
    lemma_dot_is_poly(e_hat, y_hat, k);
    lemma_dot_is_poly(s_hat, x, k);
    lemma_ntt_inv_add(b, r);
    lemma_ntt_inv_add(b, e);
}

/// The arithmetic of one coefficient: with `v = b + e + e2 + m`,
/// `c = v' - v`, `w = v' - (b + r)` and `n = e + e2 + c - r`, all modulo
/// `Q`, `w` is `m + n` modulo `Q`.
pub proof fn lemma_coefficient(pb: int, pe: int, pr: int, p2: int, pm: int, pv: int)
    ensures
        ({
            let vt = (((pb + pe) % 3329 + p2) % 3329 + pm) % 3329;
            let pc = (pv - vt) % 3329;
            let wt = (pv - (pb + pr) % 3329) % 3329;
            let nt = (((pe + p2) % 3329 + pc) % 3329 - pr) % 3329;
            eqm(wt, pm + nt)
        }),
{
    let vt = (((pb + pe) % 3329 + p2) % 3329 + pm) % 3329;
    let pc = (pv - vt) % 3329;
    let wt = (pv - (pb + pr) % 3329) % 3329;
    let nt = (((pe + p2) % 3329 + pc) % 3329 - pr) % 3329;
    // v = pb + pe + p2 + pm
    lemma_eqm_mod(pb + pe);
    lemma_eqm_add((pb + pe) % 3329, pb + pe, p2, p2);
    lemma_eqm_mod((pb + pe) % 3329 + p2);
    lemma_eqm_add(((pb + pe) % 3329 + p2) % 3329, pb + pe + p2, pm, pm);
    lemma_eqm_mod(((pb + pe) % 3329 + p2) % 3329 + pm);
    assert(eqm(vt, pb + pe + p2 + pm));
    // c = pv - v
    lemma_eqm_mod(pv - vt);
    // w = pv - (pb + pr)
    lemma_sub_mod_noop_right(pv, pb + pr, 3329);
    lemma_eqm_mod(pv - (pb + pr));
    assert(eqm(wt, pv - (pb + pr)));
    // n = pe + p2 + (pv - v) - pr
    lemma_eqm_mod(pe + p2);
    lemma_eqm_add((pe + p2) % 3329, pe + p2, pc, pv - vt);
    lemma_eqm_mod((pe + p2) % 3329 + pc);
    lemma_eqm_add(((pe + p2) % 3329 + pc) % 3329, pe + p2 + (pv - vt), -pr, -pr);
    lemma_eqm_mod(((pe + p2) % 3329 + pc) % 3329 - pr);
    assert(eqm(nt, pe + p2 + (pv - vt) - pr));
    // m + n = pm + pe + p2 + pv - v - pr, and v = pb + pe + p2 + pm
    lemma_sub_mod_noop_right(pm + pe + p2 + pv - pr, vt, 3329);
    lemma_sub_mod_noop_right(pm + pe + p2 + pv - pr, pb + pe + p2 + pm, 3329);
    lemma_eqm_add(pm, pm, nt, pe + p2 + (pv - vt) - pr);
}

/// What decryption rounds is the encoded message plus the noise, coefficient
/// by coefficient modulo `Q`.
pub proof fn lemma_rounded_is_message_plus_noise(
    a_hat: Seq<Seq<Seq<int>>>,
    s_hat: Seq<Seq<int>>,
    e_hat: Seq<Seq<int>>,
    y_hat: Seq<Seq<int>>,
    e1: Seq<Seq<int>>,
    e2: Seq<int>,
    mu: Seq<int>,
    up: Seq<Seq<int>>,
    vp: Seq<int>,
    k: nat,
    t: int,
)
    requires
        a_hat.len() == k,
        forall|i: int| 0 <= i < k ==> (#[trigger] a_hat[i]).len() == k,
        is_vec(s_hat, k),
        is_vec(e_hat, k),
        is_vec(y_hat, k),
        is_vec(e1, k),
        is_vec(up, k),
        0 <= t < 256,
    ensures
        eqm(
            rounded(s_hat, up, vp, k)[t],
            mu[t] + noise_of(a_hat, s_hat, e_hat, y_hat, e1, e2, mu, up, vp, k)[t],
        ),
{
    let cu = vec_sub(up, plain_u(a_hat, y_hat, e1));
    let ib = ntt_inv_spec(dot(mat_vec(a_hat, s_hat), y_hat, k));
    let ie = ntt_inv_spec(dot(e_hat, y_hat, k));
    let ir = ntt_inv_spec(dot(s_hat, ntt_vec_spec(vec_add(e1, cu)), k));
    lemma_decryption_parts(a_hat, s_hat, e_hat, y_hat, e1, e2, mu, up, vp, k);
    lemma_coefficient(ib[t], ie[t], ir[t], e2[t], mu[t], vp[t]);
}

/// The encoding of `k` polynomials of `d` bits a coefficient decodes to
/// them.
pub proof fn lemma_decode_vec_of_encode_vec(d: nat, k: nat, v: Seq<Seq<int>>)
    requires
        d >= 1,
        v.len() == k,
        forall|i: int| 0 <= i < k ==> (#[trigger] v[i]).len() == 256 && digits_in_range(v[i], d),
    ensures
        encode_vec(d, v).len() == 32 * d * k,
        decode_vec(d, k, encode_vec(d, v)) == v,
{
    let enc = encode_vec(d, v);
    lemma_encode_vec_len(d, v);
    assert forall|i: int| 0 <= i < k implies #[trigger] decode_vec(d, k, enc)[i] == v[i] by {
        lemma_encode_vec_chunk(d, v, i);
        assert(v[i].len() == 256 && digits_in_range(v[i], d));
        lemma_decode_of_encode(d, v[i]);
    }
    assert(decode_vec(d, k, enc) =~= v);
}

/// The noise of the decryption of the ciphertext of `(m, r)` under the key
/// pair of the seed `d`.
pub open spec fn pke_noise(
    k: nat,
    eta1: nat,
    eta2: nat,
    du: nat,
    dv: nat,
    d: Seq<u8>,
    m: Seq<u8>,
    r: Seq<u8>,
) -> Seq<int> {
    let (rho, sigma) = g_spec(d + seq![k as u8]);
    let a_hat = a_hat_spec(rho, k);
    let s_hat = ntt_vec_spec(cbd_vec(k, eta1, sigma, 0));
    let e_hat = ntt_vec_spec(cbd_vec(k, eta1, sigma, k));
    let y_hat = ntt_vec_spec(cbd_vec(k, eta1, r, 0));
    let e1 = cbd_vec(k, eta2, r, k);
    let e2 = cbd_spec(eta2, prf_spec(eta2, r, (2 * k) as u8));
    let mu = decompress_poly(1, byte_decode_spec(1, m));
    let up = decompress_vec(du, compress_vec(du, plain_u(a_hat, y_hat, e1)));
    let vp = decompress_poly(
        dv,
        compress_poly(dv, plain_v(a_hat, s_hat, e_hat, y_hat, e2, mu, k)),
    );
    noise_of(a_hat, s_hat, e_hat, y_hat, e1, e2, mu, up, vp, k)
}

/// The polynomial that the decryption of the ciphertext of `(m, r)` under
/// the key pair of the seed `d` rounds.
pub open spec fn pke_rounded(
    k: nat,
    eta1: nat,
    eta2: nat,
    du: nat,
    dv: nat,
    d: Seq<u8>,
    m: Seq<u8>,
    r: Seq<u8>,
) -> Seq<int> {
    let (rho, sigma) = g_spec(d + seq![k as u8]);
    let a_hat = a_hat_spec(rho, k);
    let s_hat = ntt_vec_spec(cbd_vec(k, eta1, sigma, 0));
    let e_hat = ntt_vec_spec(cbd_vec(k, eta1, sigma, k));
    let y_hat = ntt_vec_spec(cbd_vec(k, eta1, r, 0));
    let e1 = cbd_vec(k, eta2, r, k);
    let e2 = cbd_spec(eta2, prf_spec(eta2, r, (2 * k) as u8));
    let mu = decompress_poly(1, byte_decode_spec(1, m));
    let up = decompress_vec(du, compress_vec(du, plain_u(a_hat, y_hat, e1)));
    let vp = decompress_poly(
        dv,
        compress_poly(dv, plain_v(a_hat, s_hat, e_hat, y_hat, e2, mu, k)),
    );
    rounded(s_hat, up, vp, k)
}

/// The transforms of polynomials are polynomials with coefficients in
/// `[0, Q)`.
pub proof fn lemma_ntt_vec_is_vec(v: Seq<Seq<int>>, k: nat)
    requires
        v.len() == k,
    ensures
        is_vec(ntt_vec_spec(v), k),
{
    assert forall|i: int| 0 <= i < k implies is_poly(#[trigger] ntt_vec_spec(v)[i]) by {
        lemma_ntt_is_poly(v[i]);
    }
}

/// Compression and decompression of `k` polynomials give values of `d` bits
/// and polynomials with coefficients in `[0, Q)`.
pub proof fn lemma_compress_vec_ranges(d: nat, k: nat, u: Seq<Seq<int>>)
    requires
        1 <= d <= 11,
        u.len() == k,
        forall|i: int| 0 <= i < k ==> (#[trigger] u[i]).len() == 256,
    ensures
        compress_vec(d, u).len() == k,
        forall|i: int|
            0 <= i < k ==> (#[trigger] compress_vec(d, u)[i]).len() == 256 && digits_in_range(
                compress_vec(d, u)[i],
                d,
            ),
        is_vec(decompress_vec(d, compress_vec(d, u)), k),
{
    let c = compress_vec(d, u);
    assert forall|i: int| 0 <= i < k implies (#[trigger] c[i]).len() == 256 && digits_in_range(
        c[i],
        d,
    ) by {
        lemma_compress_ranges(d, u[i]);
    }
    let up = decompress_vec(d, c);
    assert forall|i: int| 0 <= i < k implies is_poly(#[trigger] up[i]) by {
        lemma_compress_ranges(d, u[i]);
    }
}

/// The decryption of a ciphertext under the key pair that it was made for,
/// by the polynomial that is rounded.
pub proof fn lemma_decrypt_unfolds(
    k: nat,
    eta1: nat,
    eta2: nat,
    du: nat,
    dv: nat,
    d: Seq<u8>,
    m: Seq<u8>,
    r: Seq<u8>,
)
    requires
        1 <= k,
        1 <= du <= 11,
        1 <= dv <= 11,
        key_gen_rho(k, d).len() == 32,
    ensures
        k_pke_decrypt_spec(
            k,
            du,
            dv,
            k_pke_key_gen_spec(k, eta1, d).1,
            k_pke_encrypt_spec(k, eta1, eta2, du, dv, k_pke_key_gen_spec(k, eta1, d).0, m, r),
        ) == byte_encode_spec(1, compress_poly(1, pke_rounded(k, eta1, eta2, du, dv, d, m, r))),
{
    let (rho, sigma) = g_spec(d + seq![k as u8]);
    let a_hat = a_hat_spec(rho, k);
    let s_hat = ntt_vec_spec(cbd_vec(k, eta1, sigma, 0));
    let e_hat = ntt_vec_spec(cbd_vec(k, eta1, sigma, k));
    let t_hat = vec_add(mat_vec(a_hat, s_hat), e_hat);
    let ek = encode_vec(12, t_hat) + rho;
    let dk = encode_vec(12, s_hat);
    assert(k_pke_key_gen_spec(k, eta1, d).0 == ek);
    assert(k_pke_key_gen_spec(k, eta1, d).1 == dk);
    // the key is read as it was written
    lemma_ntt_vec_is_vec(cbd_vec(k, eta1, sigma, 0), k);
    assert(is_vec(t_hat, k));
    lemma_encoding_canonical(k, t_hat);
    lemma_encoding_canonical(k, s_hat);
    assert(ek.subrange(0, (384 * k) as int) =~= encode_vec(12, t_hat));
    assert(ek.subrange((384 * k) as int, (384 * k + 32) as int) =~= rho);
    // the ciphertext
    let y_hat = ntt_vec_spec(cbd_vec(k, eta1, r, 0));
    let e1 = cbd_vec(k, eta2, r, k);
    let e2 = cbd_spec(eta2, prf_spec(eta2, r, (2 * k) as u8));
    let mu = decompress_poly(1, byte_decode_spec(1, m));
    let u = plain_u(a_hat, y_hat, e1);
    let v = plain_v(a_hat, s_hat, e_hat, y_hat, e2, mu, k);
    let cu = compress_vec(du, u);
    let cv = compress_poly(dv, v);
    let c = encode_vec(du, cu) + byte_encode_spec(dv, cv);
    assert(k_pke_encrypt_spec(k, eta1, eta2, du, dv, ek, m, r) == c);
    // the ciphertext is read as it was written
    lemma_compress_vec_ranges(du, k, u);
    lemma_compress_ranges(dv, v);
    lemma_decode_vec_of_encode_vec(du, k, cu);
    lemma_decode_of_encode(dv, cv);
    let n1 = (32 * du * k) as int;
    assert(c.subrange(0, n1) =~= encode_vec(du, cu));
    assert(c.subrange(n1, n1 + 32 * dv) =~= byte_encode_spec(dv, cv));
    assert((32 * du * k + 32 * dv) as int == n1 + 32 * dv);
}

/// Decryption undoes encryption wherever the noise is small: for the key
/// pair of a seed `d`, a message `m` of 32 bytes and randomness `r` such that
/// every coefficient of the noise is nearer to zero, modulo `Q`, than a
/// quarter of `Q`, the ciphertext of `(m, r)` decrypts to `m`.
pub proof fn lemma_decrypt_of_encrypt(
    k: nat,
    eta1: nat,
    eta2: nat,
    du: nat,
    dv: nat,
    d: Seq<u8>,
    m: Seq<u8>,
    r: Seq<u8>,
)
    requires
        1 <= k,
        1 <= du <= 11,
        1 <= dv <= 11,
        m.len() == 32,
        key_gen_rho(k, d).len() == 32,
        small(pke_noise(k, eta1, eta2, du, dv, d, m, r)),
    ensures
        k_pke_decrypt_spec(
            k,
            du,
            dv,
            k_pke_key_gen_spec(k, eta1, d).1,
            k_pke_encrypt_spec(k, eta1, eta2, du, dv, k_pke_key_gen_spec(k, eta1, d).0, m, r),
        ) == m,
{
    lemma_decrypt_unfolds(k, eta1, eta2, du, dv, d, m, r);
    let (rho, sigma) = g_spec(d + seq![k as u8]);
    let a_hat = a_hat_spec(rho, k);
    let s_hat = ntt_vec_spec(cbd_vec(k, eta1, sigma, 0));
    let e_hat = ntt_vec_spec(cbd_vec(k, eta1, sigma, k));
    let y_hat = ntt_vec_spec(cbd_vec(k, eta1, r, 0));
    let e1 = cbd_vec(k, eta2, r, k);
    let e2 = cbd_spec(eta2, prf_spec(eta2, r, (2 * k) as u8));
    let bits = byte_decode_spec(1, m);
    let mu = decompress_poly(1, bits);
    let u = plain_u(a_hat, y_hat, e1);
    let v = plain_v(a_hat, s_hat, e_hat, y_hat, e2, mu, k);
    let up = decompress_vec(du, compress_vec(du, u));
    let vp = decompress_poly(dv, compress_poly(dv, v));
    let w = rounded(s_hat, up, vp, k);
    let n = noise_of(a_hat, s_hat, e_hat, y_hat, e1, e2, mu, up, vp, k);
    assert(w == pke_rounded(k, eta1, eta2, du, dv, d, m, r));
    assert(n == pke_noise(k, eta1, eta2, du, dv, d, m, r));
    lemma_ntt_vec_is_vec(cbd_vec(k, eta1, sigma, 0), k);
    lemma_ntt_vec_is_vec(cbd_vec(k, eta1, sigma, k), k);
    lemma_ntt_vec_is_vec(cbd_vec(k, eta1, r, 0), k);
    assert(is_vec(e1, k));
    lemma_compress_vec_ranges(du, k, u);
    lemma2_to64();
    assert forall|t: int| 0 <= t < 256 implies compress_poly(1, w)[t] == bits[t] by {
        lemma_rounded_is_message_plus_noise(a_hat, s_hat, e_hat, y_hat, e1, e2, mu, up, vp, k, t);
        lemma_mod_bound(le_value(ints(m), 8) / (pow2(1 * (t as nat)) as int), 2);
        assert(bits[t] == 0 || bits[t] == 1);
        assert(mu[t] == decompress_spec(1, bits[t]));
        assert(-832 < centered(n[t]) < 832);
        lemma_round_to_bit(bits[t], w[t], n[t]);
    }
    assert(compress_poly(1, w) =~= bits);
    lemma_encode_of_decode(1, m);
}

/// Decapsulation gives the encapsulated secret wherever the noise is small:
/// for the key pair of seeds `d` and `z` and a message `m` of 32 bytes such
/// that every coefficient of the noise of the encryption of `m`, with the
/// randomness that `m` and the key determine, is nearer to zero, modulo `Q`,
/// than a quarter of `Q`, the ciphertext of the encapsulation with `m`
/// decapsulates to its shared secret.
pub proof fn lemma_decaps_after_encaps(
    k: nat,
    eta1: nat,
    eta2: nat,
    du: nat,
    dv: nat,
    d: Seq<u8>,
    z: Seq<u8>,
    m: Seq<u8>,
)
    requires
        1 <= k,
        1 <= du <= 11,
        1 <= dv <= 11,
        m.len() == 32,
        key_gen_rho(k, d).len() == 32,
        h_spec(k_pke_key_gen_spec(k, eta1, d).0).len() == 32,
        small(
            pke_noise(
                k,
                eta1,
                eta2,
                du,
                dv,
                d,
                m,
                g_spec(m + h_spec(k_pke_key_gen_spec(k, eta1, d).0)).1,
            ),
        ),
    ensures
        ml_kem_decaps_spec(
            k,
            eta1,
            eta2,
            du,
            dv,
            ml_kem_key_gen_spec(k, eta1, d, z).1,
            ml_kem_encaps_spec(k, eta1, eta2, du, dv, ml_kem_key_gen_spec(k, eta1, d, z).0, m).1,
        ) == ml_kem_encaps_spec(
            k,
            eta1,
            eta2,
            du,
            dv,
            ml_kem_key_gen_spec(k, eta1, d, z).0,
            m,
        ).0,
{
    let (ek, dk_pke) = k_pke_key_gen_spec(k, eta1, d);
    let dk = dk_pke + ek + h_spec(ek) + z;
    assert(ml_kem_key_gen_spec(k, eta1, d, z).0 == ek);
    assert(ml_kem_key_gen_spec(k, eta1, d, z).1 == dk);
    let r = g_spec(m + h_spec(ek)).1;
    lemma_decrypt_of_encrypt(k, eta1, eta2, du, dv, d, m, r);
    // the lengths of the parts of the two keys
    let (rho, sigma) = g_spec(d + seq![k as u8]);
    let s_hat = ntt_vec_spec(cbd_vec(k, eta1, sigma, 0));
    let e_hat = ntt_vec_spec(cbd_vec(k, eta1, sigma, k));
    let t_hat = vec_add(mat_vec(a_hat_spec(rho, k), s_hat), e_hat);
    lemma_encode_vec_len(12, t_hat);
    lemma_encode_vec_len(12, s_hat);
    assert(ek == encode_vec(12, t_hat) + rho);
    assert(dk_pke == encode_vec(12, s_hat));
    assert(32 * 12 * t_hat.len() == 384 * k);
    assert(32 * 12 * s_hat.len() == 384 * k);
    assert(dk.subrange(0, (384 * k) as int) =~= dk_pke);
    assert(dk_ek(k, dk) =~= ek);
    assert(dk_hash(k, dk) =~= h_spec(ek));
    lemma_decaps_of_encaps(k, eta1, eta2, du, dv, dk, m);
}

/// The sum of the products, in the ring of polynomials modulo `X^256 + 1`,
/// of the first `n` entries of `a` and `b`.
pub open spec fn ring_dot(a: Seq<Seq<int>>, b: Seq<Seq<int>>, n: nat) -> Seq<int>
    decreases n,
{
    if n == 0 {
        zero_poly()
    } else {
        poly_add(ring_dot(a, b, (n - 1) as nat), ring_mul(a[n - 1], b[n - 1]))
    }
}

/// The transform of the zero polynomial is the zero polynomial, and so is
/// its inverse transform.
pub proof fn lemma_ntt_zero()
    ensures
        ntt_spec(zero_poly()) == zero_poly(),
        ntt_inv_spec(zero_poly()) == zero_poly(),
{
    let z = zero_poly();
    let l = ntt_spec(z);
    lemma_ntt_is_poly(z);
    assert forall|t: int| 0 <= t < 256 implies l[t] == 0 by {
        let i = t / 2;
        let b = t % 2;
        lemma_ntt_is_evaluation(z, i, b);
        assert forall|r: int| 0 <= r < 128 implies #[trigger] z[b + 2 * r] == 0 by {}
        lemma_zsum_zero(z, b, bitrev8((128 + i) as u8) as nat, 128);
    }
    assert(l =~= z);
    lemma_ntt_inv_of_ntt(z);
}

/// The sums of products that the scheme takes between transforms are the
/// sums of products in the ring: the inverse transform of the sum of the
/// products of the transforms of `a[i]` and `b[i]` is the sum of the
/// products of `a[i]` and `b[i]` modulo `X^256 + 1`.
pub proof fn lemma_dot_in_ring(a: Seq<Seq<int>>, b: Seq<Seq<int>>, k: nat, n: nat)
    requires
        is_vec(a, k),
        is_vec(b, k),
        n <= k,
    ensures
        ntt_inv_spec(dot(ntt_vec_spec(a), ntt_vec_spec(b), n)) == ring_dot(a, b, n),
    decreases n,
{
    if n == 0 {
        lemma_ntt_zero();
    } else {
        let n1 = (n - 1) as nat;
        lemma_dot_in_ring(a, b, k, n1);
        let prev = dot(ntt_vec_spec(a), ntt_vec_spec(b), n1);
        let last = multiply_ntts_spec(ntt_spec(a[n - 1]), ntt_spec(b[n - 1]));
        lemma_dot_is_poly(ntt_vec_spec(a), ntt_vec_spec(b), n1);
        lemma_ntt_inv_add(prev, last);
        assert(is_poly(a[n - 1]) && is_poly(b[n - 1]));
        lemma_ring_mul_by_transforms(a[n - 1], b[n - 1]);
        assert(ntt_vec_spec(a)[n - 1] == ntt_spec(a[n - 1]));
        assert(ntt_vec_spec(b)[n - 1] == ntt_spec(b[n - 1]));
    }
}

} // verus!
