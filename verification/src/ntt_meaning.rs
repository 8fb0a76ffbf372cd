//! What the forward transform computes: the values of a polynomial at the
//! odd powers of `ZETA`.
//!
//! A polynomial `f` of 256 coefficients is, modulo `X^2 - ZETA^e` for an odd
//! `e`, a polynomial of degree one, whose two coefficients are the values at
//! `ZETA^e` of the polynomials made of the coefficients of `f` at the even
//! and at the odd places. The forward transform holds these two
//! coefficients, for the 128 odd `e` below 256 in bit-reversed order, as its
//! 128 pairs.
use crate::ntt::{
    bitrev8, fmul, fwd_from, fwd_layer, is_poly, lemma_block, lemma_zeta_pow_range, ntt_spec,
    zeta_pow, zeta_table,
};
use crate::ntt_laws::{
    lemma_fadd_cong, lemma_fmul_cong, lemma_fsub_cong, lemma_zeta_pow_128, lemma_zeta_pow_adds,
};
use vstd::arithmetic::div_mod::*;
use vstd::prelude::*;

verus! {

/// The sum of `f[m + step r] ZETA^(e r)` over `r` from 0 to `n - 1`, modulo
/// `Q`.
pub open spec fn zsum(f: Seq<int>, m: int, step: int, e: nat, n: nat) -> int
    decreases n,
{
    if n == 0 {
        0
    } else {
        (zsum(f, m, step, e, (n - 1) as nat) + f[m + step * (n - 1)] * zeta_pow(
            e * ((n - 1) as nat),
        )) % 3329
    }
}

/// Coefficient `m` of block `b` of an array cut into blocks of `size`.
pub open spec fn at(g: Seq<int>, b: int, size: int, m: int) -> int {
    g[b * size + m]
}

/// Whether `g` is `f` reduced modulo `n` polynomials `X^size - ZETA^e`, one
/// for each block of `size` coefficients: block `b` holds, for
/// `e = bitrev8(n + b)`, the sums `zsum(f, m, size, e, n)`.
pub open spec fn level_ok(f: Seq<int>, g: Seq<int>, n: int, size: int) -> bool {
    &&& g.len() == 256
    &&& forall|b: int, m: int|
        0 <= b < n && 0 <= m < size ==> #[trigger] at(g, b, size, m) == zsum(
            f,
            m,
            size,
            bitrev8((n + b) as u8) as nat,
            n as nat,
        )
}

/// `ZETA^256 = 1` modulo `Q`, so a power of `ZETA` depends on its exponent
/// modulo 256 only.
pub proof fn lemma_zeta_pow_period(x: nat, y: nat)
    ensures
        zeta_pow(x + 256 * y) == zeta_pow(x),
    decreases y,
{
    lemma_zeta_pow_range(x);
    if y == 0 {
    } else {
        lemma_zeta_pow_period(x, (y - 1) as nat);
        lemma_zeta_pow_128();
        lemma_zeta_pow_adds(128, 128);
        assert(zeta_pow(256) == 1);
        let x1 = x + 256 * ((y - 1) as nat);
        lemma_zeta_pow_adds(x1, 256);
        assert(x1 + 256 == x + 256 * y);
        lemma_small_mod(zeta_pow(x1) as nat, 3329);
    }
}

/// `ZETA^(x + 128) = -ZETA^x` modulo `Q`.
pub proof fn lemma_zeta_pow_half(x: nat)
    ensures
        zeta_pow(x + 128) == (-zeta_pow(x)) % 3329,
{
    lemma_zeta_pow_128();
    lemma_zeta_pow_adds(x, 128);
    let p = zeta_pow(x);
    assert(p * 3328 == 3329 * p + (-p)) by (nonlinear_arith);
    lemma_mod_multiples_vanish(p, -p, 3329);
}

/// Adding 256 to the exponent changes nothing.
pub proof fn lemma_zsum_period(f: Seq<int>, m: int, step: int, e: nat, n: nat)
    ensures
        zsum(f, m, step, e + 256, n) == zsum(f, m, step, e, n),
    decreases n,
{
    if n > 0 {
        let r = (n - 1) as nat;
        lemma_zsum_period(f, m, step, e, r);
        assert((e + 256) * r == e * r + 256 * r) by (nonlinear_arith);
        lemma_zeta_pow_period(e * r, r);
    }
}

/// A sum over `2 n` places at distance `step` is the sum over the `n` even
/// ones plus `ZETA^e` times the sum over the `n` odd ones, each with the
/// exponent doubled.
pub proof fn lemma_zsum_split(f: Seq<int>, m: int, step: int, e: nat, n: nat)
    ensures
        zsum(f, m, step, e, 2 * n) == (zsum(f, m, 2 * step, 2 * e, n) + zsum(
            f,
            m + step,
            2 * step,
            2 * e,
            n,
        ) * zeta_pow(e)) % 3329,
    decreases n,
{
    let z = zeta_pow(e);
    if n == 0 {
        assert(zsum(f, m, step, e, 0) == 0);
        assert(zsum(f, m, 2 * step, 2 * e, 0) == 0);
        assert(zsum(f, m + step, 2 * step, 2 * e, 0) == 0);
        assert(0 * z == 0);
    } else {
        let r = (n - 1) as nat;
        lemma_zsum_split(f, m, step, e, r);
        let s3 = zsum(f, m, step, e, 2 * r);
        let a1 = zsum(f, m, 2 * step, 2 * e, r);
        let b1 = zsum(f, m + step, 2 * step, 2 * e, r);
        let pw = zeta_pow((2 * e) * r);
        let x0 = f[m + (2 * step) * r];
        let x1 = f[(m + step) + (2 * step) * r];
        // the two last terms of the long sum
        assert(2 * n - 2 == 2 * r);
        assert(m + step * (2 * r) == m + (2 * step) * r) by (nonlinear_arith);
        assert(m + step * (2 * r + 1) == (m + step) + (2 * step) * r) by (nonlinear_arith);
        assert(e * (2 * r) == (2 * e) * r) by (nonlinear_arith);
        assert(e * (2 * r + 1) == (2 * e) * r + e) by (nonlinear_arith);
        let s2 = zsum(f, m, step, e, 2 * r + 1);
        let s1 = zsum(f, m, step, e, 2 * n);
        assert(s2 == (s3 + x0 * pw) % 3329) by {
            assert((2 * r + 1 - 1) as nat == 2 * r);
        }
        assert(s1 == (s2 + x1 * zeta_pow((2 * e) * r + e)) % 3329) by {
            assert((2 * n - 1) as nat == 2 * r + 1);
        }
        lemma_zeta_pow_adds((2 * e) * r, e);
        // the last terms of the two short sums
        let a = zsum(f, m, 2 * step, 2 * e, n);
        let b = zsum(f, m + step, 2 * step, 2 * e, n);
        assert(a == (a1 + x0 * pw) % 3329);
        assert(b == (b1 + x1 * pw) % 3329);
        // both sides are a1 + x0 pw + (b1 + x1 pw) z modulo Q
        lemma_mod_twice(a1 + b1 * z, 3329);
        lemma_fadd_cong(s3, x0 * pw, a1 + b1 * z, x0 * pw);
        lemma_fmul_cong(x1, zeta_pow((2 * e) * r + e), x1, pw * z);
        lemma_mod_twice(x1 * (pw * z), 3329);
        lemma_fadd_cong(s2, x1 * zeta_pow((2 * e) * r + e), a1 + b1 * z + x0 * pw, x1 * (pw * z));
        assert(a1 + b1 * z + x0 * pw + x1 * (pw * z) == a1 + x0 * pw + (b1 + x1 * pw) * z)
            by (nonlinear_arith);
        assert(s1 == (a1 + x0 * pw + (b1 + x1 * pw) * z) % 3329);
        lemma_mod_twice(a1 + x0 * pw, 3329);
        lemma_mod_twice(b1 + x1 * pw, 3329);
        lemma_fmul_cong(b, z, b1 + x1 * pw, z);
        lemma_mod_twice((b1 + x1 * pw) * z, 3329);
        lemma_fadd_cong(a, b * z, a1 + x0 * pw, (b1 + x1 * pw) * z);
    }
}

/// How the bits of `2 x` and of `2 x + 1` reverse, for `x` below 128.
pub proof fn lemma_bitrev8_double(x: u8)
    requires
        x < 128,
    ensures
        2 * bitrev8((2 * x) as u8) == bitrev8(x),
        bitrev8((2 * x + 1) as u8) == bitrev8((2 * x) as u8) + 128,
{
    let x0: u8 = (2 * x) as u8;
    let x1: u8 = (2 * x + 1) as u8;
    let r = bitrev8(x);
    let r0 = bitrev8(x0);
    let r1 = bitrev8(x1);
    assert(2 * r0 == r && r1 == r0 + 128) by (bit_vector)
        requires
            x < 128,
            x0 == 2 * x,
            x1 == 2 * x + 1,
            r == ((x & 1) << 7) | ((x & 2) << 5) | ((x & 4) << 3) | ((x & 8) << 1) | ((x & 16) >> 1)
                | ((x & 32) >> 3) | ((x & 64) >> 5) | ((x & 128) >> 7),
            r0 == ((x0 & 1) << 7) | ((x0 & 2) << 5) | ((x0 & 4) << 3) | ((x0 & 8) << 1) | ((x0 & 16)
                >> 1) | ((x0 & 32) >> 3) | ((x0 & 64) >> 5) | ((x0 & 128) >> 7),
            r1 == ((x1 & 1) << 7) | ((x1 & 2) << 5) | ((x1 & 4) << 3) | ((x1 & 8) << 1) | ((x1 & 16)
                >> 1) | ((x1 & 32) >> 3) | ((x1 & 64) >> 5) | ((x1 & 128) >> 7),
    ;
}

/// Whether `n` blocks of `size` coefficients make up a level before the last:
/// `n size = 256` with `n` a power of two up to 64.
pub open spec fn level_of(n: int, size: int) -> bool {
    ||| (n == 1 && size == 256)
    ||| (n == 2 && size == 128)
    ||| (n == 4 && size == 64)
    ||| (n == 8 && size == 32)
    ||| (n == 16 && size == 16)
    ||| (n == 32 && size == 8)
    ||| (n == 64 && size == 4)
}

/// One value of a layer: the layer with pair distance `size / 2` takes the
/// residues modulo `n` polynomials to the residues modulo `2 n`.
pub proof fn lemma_level_value(f: Seq<int>, g: Seq<int>, n: int, size: int, b2: int, m: int)
    requires
        level_of(n, size),
        level_ok(f, g, n, size),
        0 <= b2 < 2 * n,
        0 <= m < size / 2,
    ensures
        at(fwd_layer(g, size / 2), b2, size / 2, m) == zsum(
            f,
            m,
            size / 2,
            bitrev8((2 * n + b2) as u8) as nat,
            (2 * n) as nat,
        ),
{
    let len = size / 2;
    let b = b2 / 2;
    let e = b2 % 2;
    let t = b2 * len + m;
    assert(t == b * (2 * len) + (e * len + m)) by (nonlinear_arith)
        requires
            t == b2 * len + m,
            b2 == 2 * b + e,
    ;
    assert(0 <= t < 256 && 0 <= e * len + m < 2 * len) by (nonlinear_arith)
        requires
            t == b * (2 * len) + (e * len + m),
            0 <= b < n,
            0 <= e < 2,
            0 <= m < len,
            level_of(n, size),
            len == size / 2,
    ;
    lemma_block(t, len, b, e * len + m);
    lemma_fundamental_div_mod_converse(128, len, n, 0);
    let x: u8 = (n + b) as u8;
    lemma_bitrev8_double(x);
    let h = bitrev8((2 * x) as u8) as nat;
    let z = zeta_table()[2 * (n + b)];
    assert(z == zeta_pow(h));
    let big_a = zsum(f, m, size, 2 * h, n as nat);
    let big_b = zsum(f, m + len, size, 2 * h, n as nat);
    assert(at(g, b, size, m) == big_a);
    assert(at(g, b, size, m + len) == big_b);
    assert(size == 2 * len);
    assert(b * size == b * (2 * len)) by (nonlinear_arith)
        requires
            size == 2 * len,
    ;
    assert(e * len == if e == 0 {
        0
    } else {
        len
    }) by (nonlinear_arith)
        requires
            e == 0 || e == 1,
    ;
    if e == 0 {
        assert(g[t] == big_a);
        assert(g[t + len] == big_b);
        lemma_zsum_split(f, m, len, h, n as nat);
        lemma_fmul_cong(big_b, z, big_b, z);
        lemma_fadd_cong(big_a, fmul(big_b, z), big_a, big_b * z);
        assert((2 * n + b2) as u8 == (2 * x) as u8);
    } else {
        assert(g[t - len] == big_a);
        assert(g[t] == big_b);
        let h1 = (h + 128) as nat;
        lemma_zsum_split(f, m, len, h1, n as nat);
        assert(2 * h1 == 2 * h + 256);
        lemma_zsum_period(f, m, size, 2 * h, n as nat);
        lemma_zsum_period(f, m + len, size, 2 * h, n as nat);
        lemma_zeta_pow_half(h);
        // big_a + big_b * (-z) and big_a - big_b * z agree modulo Q
        lemma_fmul_cong(big_b, zeta_pow(h1), big_b, -z);
        lemma_mod_twice(-z, 3329);
        lemma_fadd_cong(big_a, big_b * zeta_pow(h1), big_a, big_b * (-z));
        lemma_mod_twice(big_b * zeta_pow(h1), 3329);
        lemma_fmul_cong(big_b, z, big_b, z);
        lemma_fsub_cong(big_a, fmul(big_b, z), big_a, big_b * z);
        assert(big_a + big_b * (-z) == big_a - big_b * z) by (nonlinear_arith);
        assert((2 * n + b2) as u8 == (2 * x + 1) as u8);
    }
}

/// One layer takes a level to the next.
pub proof fn lemma_level_step(f: Seq<int>, g: Seq<int>, n: int, size: int)
    requires
        level_of(n, size),
        level_ok(f, g, n, size),
    ensures
        level_ok(f, fwd_layer(g, size / 2), 2 * n, size / 2),
{
    let g2 = fwd_layer(g, size / 2);
    assert forall|b2: int, m: int| 0 <= b2 < 2 * n && 0 <= m < size / 2 implies #[trigger] at(
        g2,
        b2,
        size / 2,
        m,
    ) == zsum(f, m, size / 2, bitrev8((2 * n + b2) as u8) as nat, (2 * n) as nat) by {
        lemma_level_value(f, g, n, size, b2, m);
    }
}

/// The forward transform is evaluation: for a polynomial `f` with
/// coefficients in `[0, Q)`, coefficient `b` of pair `i` of `ntt_spec(f)` is
/// the sum of `f[b + 2 r] ZETA^(e r)` over the 128 values of `r`, for the
/// odd exponent `e = bitrev8(128 + i)`, which is `2 BitRev7(i) + 1`. That is
/// coefficient `b` of `f` modulo `X^2 - ZETA^e`.
pub proof fn lemma_ntt_is_evaluation(f: Seq<int>, i: int, b: int)
    requires
        is_poly(f),
        0 <= i < 128,
        0 <= b < 2,
    ensures
        ntt_spec(f)[2 * i + b] == zsum(f, b, 2, bitrev8((128 + i) as u8) as nat, 128),
{
    assert(level_ok(f, f, 1, 256)) by {
        assert forall|b0: int, m: int| 0 <= b0 < 1 && 0 <= m < 256 implies #[trigger] at(
            f,
            b0,
            256,
            m,
        ) == zsum(f, m, 256, bitrev8((1 + b0) as u8) as nat, 1) by {
            let e = bitrev8(1u8) as nat;
            assert(zsum(f, m, 256, e, 0) == 0);
            assert(e * 0 == 0);
            assert(zeta_pow(0) == 1);
            assert(zsum(f, m, 256, e, 1) == (0 + f[m + 256 * 0] * zeta_pow(e * 0)) % 3329);
            lemma_small_mod(f[m] as nat, 3329);
        }
    }
    let g1 = fwd_layer(f, 128);
    lemma_level_step(f, f, 1, 256);
    let g2 = fwd_layer(g1, 64);
    lemma_level_step(f, g1, 2, 128);
    let g3 = fwd_layer(g2, 32);
    lemma_level_step(f, g2, 4, 64);
    let g4 = fwd_layer(g3, 16);
    lemma_level_step(f, g3, 8, 32);
    let g5 = fwd_layer(g4, 8);
    lemma_level_step(f, g4, 16, 16);
    let g6 = fwd_layer(g5, 4);
    lemma_level_step(f, g5, 32, 8);
    let g7 = fwd_layer(g6, 2);
    lemma_level_step(f, g6, 64, 4);
    assert(ntt_spec(f) == g7) by {
        reveal_with_fuel(fwd_from, 8);
    }
    assert(at(g7, i, 2, b) == g7[2 * i + b]);
}

} // verus!
