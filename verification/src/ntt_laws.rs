//! The two transforms undo each other.
use crate::ntt::{
    bitrev8, fadd, fmul, fsub, fwd_from, fwd_layer, inv_from, inv_layer, is_poly, layer_of,
    lemma_block, lemma_zeta_pow_range, ntt_inv_spec, ntt_spec, scale, zeta_pow, zeta_table,
};
use vstd::arithmetic::div_mod::*;
use vstd::prelude::*;

verus! {

/// A sum modulo `Q` depends on its terms only modulo `Q`.
pub proof fn lemma_fadd_cong(u: int, v: int, u2: int, v2: int)
    requires
        u % 3329 == u2 % 3329,
        v % 3329 == v2 % 3329,
    ensures
        fadd(u, v) == (u2 + v2) % 3329,
        fadd(u, v) % 3329 == (u2 + v2) % 3329,
{
    lemma_add_mod_noop(u, v, 3329);
    lemma_add_mod_noop(u2, v2, 3329);
    lemma_mod_twice(u2 + v2, 3329);
}

/// A difference modulo `Q` depends on its terms only modulo `Q`.
pub proof fn lemma_fsub_cong(u: int, v: int, u2: int, v2: int)
    requires
        u % 3329 == u2 % 3329,
        v % 3329 == v2 % 3329,
    ensures
        fsub(u, v) == (u2 - v2) % 3329,
        fsub(u, v) % 3329 == (u2 - v2) % 3329,
{
    lemma_sub_mod_noop(u, v, 3329);
    lemma_sub_mod_noop(u2, v2, 3329);
    lemma_mod_twice(u2 - v2, 3329);
}

/// A product modulo `Q` depends on its factors only modulo `Q`.
pub proof fn lemma_fmul_cong(u: int, v: int, u2: int, v2: int)
    requires
        u % 3329 == u2 % 3329,
        v % 3329 == v2 % 3329,
    ensures
        fmul(u, v) == (u2 * v2) % 3329,
        fmul(u, v) % 3329 == (u2 * v2) % 3329,
{
    lemma_mul_mod_noop(u, v, 3329);
    lemma_mul_mod_noop(u2, v2, 3329);
    lemma_mod_twice(u2 * v2, 3329);
}

/// A multiple of `w w2` is the negated multiple modulo `Q`, when
/// `w w2 = -1` modulo `Q`.
pub proof fn lemma_cancel_pair(k: int, w: int, w2: int)
    requires
        (w * w2) % 3329 == 3328,
    ensures
        (k * (w * w2)) % 3329 == (-k) % 3329,
{
    lemma_mul_mod_noop_right(k, w * w2, 3329);
    assert(k * 3328 == 3329 * k + (-k)) by (nonlinear_arith);
    lemma_mod_multiples_vanish(k, -k, 3329);
}

/// The forward butterfly followed by the inverse one doubles both values.
pub proof fn lemma_butterfly_inv_fwd(x: int, y: int, w: int, w2: int)
    requires
        (w * w2) % 3329 == 3328,
    ensures
        fadd(fadd(x, fmul(y, w)), fsub(x, fmul(y, w))) == fmul(x, 2),
        fmul(w2, fsub(fsub(x, fmul(y, w)), fadd(x, fmul(y, w)))) == fmul(y, 2),
{
    let m = fmul(y, w);
    lemma_fmul_cong(y, w, y, w);
    lemma_fadd_cong(x, m, x, y * w);
    lemma_fsub_cong(x, m, x, y * w);
    lemma_fadd_cong(fadd(x, m), fsub(x, m), x + y * w, x - y * w);
    assert((x + y * w) + (x - y * w) == x * 2);
    lemma_fsub_cong(fsub(x, m), fadd(x, m), x - y * w, x + y * w);
    let d = fsub(fsub(x, m), fadd(x, m));
    lemma_fmul_cong(w2, d, w2, (x - y * w) - (x + y * w));
    assert(w2 * ((x - y * w) - (x + y * w)) == (-2 * y) * (w * w2)) by (nonlinear_arith);
    lemma_cancel_pair(-2 * y, w, w2);
    assert(-(-2 * y) == y * 2);
}

/// The inverse butterfly followed by the forward one doubles both values.
pub proof fn lemma_butterfly_fwd_inv(x: int, y: int, w: int, w2: int)
    requires
        (w * w2) % 3329 == 3328,
    ensures
        fadd(fadd(x, y), fmul(fmul(w2, fsub(y, x)), w)) == fmul(x, 2),
        fsub(fadd(x, y), fmul(fmul(w2, fsub(y, x)), w)) == fmul(y, 2),
{
    let s = fsub(y, x);
    lemma_fsub_cong(y, x, y, x);
    lemma_fmul_cong(w2, s, w2, y - x);
    let t = fmul(w2, s);
    lemma_fmul_cong(t, w, w2 * (y - x), w);
    assert((w2 * (y - x)) * w == (y - x) * (w * w2)) by (nonlinear_arith);
    lemma_cancel_pair(y - x, w, w2);
    let r = fmul(t, w);
    assert(r % 3329 == (x - y) % 3329);
    lemma_fadd_cong(x, y, x, y);
    lemma_fadd_cong(fadd(x, y), r, x + y, x - y);
    assert((x + y) + (x - y) == x * 2);
    lemma_fsub_cong(fadd(x, y), r, x + y, x - y);
    assert((x + y) - (x - y) == y * 2);
}

/// Both butterflies commute with a multiplication of both values by `c`.
pub proof fn lemma_butterfly_scale(x: int, y: int, w: int, c: int)
    ensures
        fadd(fmul(x, c), fmul(fmul(y, c), w)) == fmul(fadd(x, fmul(y, w)), c),
        fsub(fmul(x, c), fmul(fmul(y, c), w)) == fmul(fsub(x, fmul(y, w)), c),
        fadd(fmul(x, c), fmul(y, c)) == fmul(fadd(x, y), c),
        fmul(w, fsub(fmul(y, c), fmul(x, c))) == fmul(fmul(w, fsub(y, x)), c),
{
    lemma_fmul_cong(x, c, x, c);
    lemma_fmul_cong(y, c, y, c);
    lemma_fmul_cong(fmul(y, c), w, y * c, w);
    lemma_fmul_cong(y, w, y, w);
    // forward, lower half
    lemma_fadd_cong(fmul(x, c), fmul(fmul(y, c), w), x * c, (y * c) * w);
    lemma_fadd_cong(x, fmul(y, w), x, y * w);
    lemma_fmul_cong(fadd(x, fmul(y, w)), c, x + y * w, c);
    assert(x * c + (y * c) * w == (x + y * w) * c) by (nonlinear_arith);
    // forward, upper half
    lemma_fsub_cong(fmul(x, c), fmul(fmul(y, c), w), x * c, (y * c) * w);
    lemma_fsub_cong(x, fmul(y, w), x, y * w);
    lemma_fmul_cong(fsub(x, fmul(y, w)), c, x - y * w, c);
    assert(x * c - (y * c) * w == (x - y * w) * c) by (nonlinear_arith);
    // inverse, lower half
    lemma_fadd_cong(fmul(x, c), fmul(y, c), x * c, y * c);
    lemma_fadd_cong(x, y, x, y);
    lemma_fmul_cong(fadd(x, y), c, x + y, c);
    assert(x * c + y * c == (x + y) * c) by (nonlinear_arith);
    // inverse, upper half
    lemma_fsub_cong(fmul(y, c), fmul(x, c), y * c, x * c);
    lemma_fmul_cong(w, fsub(fmul(y, c), fmul(x, c)), w, y * c - x * c);
    lemma_fsub_cong(y, x, y, x);
    lemma_fmul_cong(w, fsub(y, x), w, y - x);
    lemma_fmul_cong(fmul(w, fsub(y, x)), c, w * (y - x), c);
    assert(w * (y * c - x * c) == (w * (y - x)) * c) by (nonlinear_arith);
}

/// `ZETA^a ZETA^b = ZETA^(a + b)` modulo `Q`.
pub proof fn lemma_zeta_pow_adds(a: nat, b: nat)
    ensures
        (zeta_pow(a) * zeta_pow(b)) % 3329 == zeta_pow(a + b),
    decreases b,
{
    lemma_zeta_pow_range(a);
    if b == 0 {
        lemma_small_mod(zeta_pow(a) as nat, 3329);
    } else {
        let b1 = (b - 1) as nat;
        lemma_zeta_pow_adds(a, b1);
        let p = zeta_pow(b1);
        // zeta_pow(b) = (p * 17) % Q
        lemma_mul_mod_noop_right(zeta_pow(a), p * 17, 3329);
        assert(zeta_pow(a) * (p * 17) == (zeta_pow(a) * p) * 17) by (nonlinear_arith);
        lemma_mul_mod_noop_left(zeta_pow(a) * p, 17, 3329);
        assert(a + b == (a + b1) + 1);
    }
}

/// `ZETA^128 = -1` modulo `Q`.
pub proof fn lemma_zeta_pow_128()
    ensures
        zeta_pow(128) == 3328,
{
    assert(zeta_pow(1) == 17) by {
        assert(zeta_pow(0) == 1);
    }
    lemma_zeta_pow_adds(1, 1);
    assert(zeta_pow(2) == 289);
    lemma_zeta_pow_adds(2, 2);
    assert(zeta_pow(4) == 296);
    lemma_zeta_pow_adds(4, 4);
    assert(zeta_pow(8) == 1062);
    lemma_zeta_pow_adds(8, 8);
    assert(zeta_pow(16) == 2642);
    lemma_zeta_pow_adds(16, 16);
    assert(zeta_pow(32) == 2580);
    lemma_zeta_pow_adds(32, 32);
    assert(zeta_pow(64) == 1729);
    lemma_zeta_pow_adds(64, 64);
}

/// The table entries that a block uses in the forward and in the inverse
/// layer of one pair distance multiply to `-1` modulo `Q`.
pub proof fn lemma_zeta_pair(len: int, n: int, blk: int)
    requires
        layer_of(len, n),
        len >= 2,
        0 <= blk < n,
    ensures
        (zeta_table()[2 * (n + blk)] * zeta_table()[2 * (2 * n - 1 - blk)]) % 3329 == 3328,
{
    let x: u8 = (2 * (n + blk)) as u8;
    let y: u8 = (2 * (2 * n - 1 - blk)) as u8;
    let nn: u8 = n as u8;
    let bb: u8 = blk as u8;
    let rx = bitrev8(x);
    let ry = bitrev8(y);
    assert(rx + ry == 128) by (bit_vector)
        requires
            nn == 1 || nn == 2 || nn == 4 || nn == 8 || nn == 16 || nn == 32 || nn == 64,
            bb < nn,
            x == 2 * (nn + bb),
            y == 2 * (2 * nn - 1 - bb),
            rx == ((x & 1) << 7) | ((x & 2) << 5) | ((x & 4) << 3) | ((x & 8) << 1) | ((x & 16)
                >> 1) | ((x & 32) >> 3) | ((x & 64) >> 5) | ((x & 128) >> 7),
            ry == ((y & 1) << 7) | ((y & 2) << 5) | ((y & 4) << 3) | ((y & 8) << 1) | ((y & 16)
                >> 1) | ((y & 32) >> 3) | ((y & 64) >> 5) | ((y & 128) >> 7),
    ;
    lemma_zeta_pow_adds(rx as nat, ry as nat);
    lemma_zeta_pow_128();
}

/// An inverse layer undoes the forward layer of the same pair distance, up
/// to a factor 2.
pub proof fn lemma_inv_layer_of_fwd_layer(g: Seq<int>, len: int, n: int)
    requires
        g.len() == 256,
        layer_of(len, n),
        len >= 2,
    ensures
        inv_layer(fwd_layer(g, len), len) == scale(g, 2),
{
    let f = fwd_layer(g, len);
    lemma_fundamental_div_mod_converse(128, len, n, 0);
    lemma_fundamental_div_mod_converse(256, len, 2 * n, 0);
    assert forall|t: int| 0 <= t < 256 implies inv_layer(f, len)[t] == scale(g, 2)[t] by {
        let blk = t / (2 * len);
        let off = t % (2 * len);
        lemma_fundamental_div_mod(t, 2 * len);
        lemma_mod_bound(t, 2 * len);
        assert(0 <= blk < n && (t + len < 256 || off >= len)) by (nonlinear_arith)
            requires
                t == (2 * len) * blk + off,
                0 <= off < 2 * len,
                0 <= t < 256,
                layer_of(len, n),
        ;
        assert((2 * len) * blk == blk * (2 * len)) by (nonlinear_arith);
        lemma_zeta_pair(len, n, blk);
        let w = zeta_table()[2 * (n + blk)];
        let w2 = zeta_table()[2 * (2 * n - 1 - blk)];
        if off < len {
            lemma_block(t, len, blk, off);
            lemma_block(t + len, len, blk, off + len);
            lemma_butterfly_inv_fwd(g[t], g[t + len], w, w2);
        } else {
            lemma_block(t, len, blk, off);
            lemma_block(t - len, len, blk, off - len);
            lemma_butterfly_inv_fwd(g[t - len], g[t], w, w2);
        }
    }
    assert(inv_layer(f, len) =~= scale(g, 2));
}

/// A forward layer undoes the inverse layer of the same pair distance, up to
/// a factor 2.
pub proof fn lemma_fwd_layer_of_inv_layer(g: Seq<int>, len: int, n: int)
    requires
        g.len() == 256,
        layer_of(len, n),
        len >= 2,
    ensures
        fwd_layer(inv_layer(g, len), len) == scale(g, 2),
{
    let f = inv_layer(g, len);
    lemma_fundamental_div_mod_converse(128, len, n, 0);
    lemma_fundamental_div_mod_converse(256, len, 2 * n, 0);
    assert forall|t: int| 0 <= t < 256 implies fwd_layer(f, len)[t] == scale(g, 2)[t] by {
        let blk = t / (2 * len);
        let off = t % (2 * len);
        lemma_fundamental_div_mod(t, 2 * len);
        lemma_mod_bound(t, 2 * len);
        assert(0 <= blk < n && (t + len < 256 || off >= len)) by (nonlinear_arith)
            requires
                t == (2 * len) * blk + off,
                0 <= off < 2 * len,
                0 <= t < 256,
                layer_of(len, n),
        ;
        assert((2 * len) * blk == blk * (2 * len)) by (nonlinear_arith);
        lemma_zeta_pair(len, n, blk);
        let w = zeta_table()[2 * (n + blk)];
        let w2 = zeta_table()[2 * (2 * n - 1 - blk)];
        if off < len {
            lemma_block(t, len, blk, off);
            lemma_block(t + len, len, blk, off + len);
            lemma_butterfly_fwd_inv(g[t], g[t + len], w, w2);
        } else {
            lemma_block(t, len, blk, off);
            lemma_block(t - len, len, blk, off - len);
            lemma_butterfly_fwd_inv(g[t - len], g[t], w, w2);
        }
    }
    assert(fwd_layer(f, len) =~= scale(g, 2));
}

/// Both kinds of layer commute with a multiplication of every coefficient
/// by `c`.
pub proof fn lemma_layer_scale(g: Seq<int>, len: int, n: int, c: int)
    requires
        g.len() == 256,
        layer_of(len, n),
        len >= 2,
    ensures
        fwd_layer(scale(g, c), len) == scale(fwd_layer(g, len), c),
        inv_layer(scale(g, c), len) == scale(inv_layer(g, len), c),
{
    let s = scale(g, c);
    assert forall|t: int| 0 <= t < 256 implies fwd_layer(s, len)[t] == scale(fwd_layer(g, len), c)[t]
        && inv_layer(s, len)[t] == scale(inv_layer(g, len), c)[t] by {
        let blk = t / (2 * len);
        let off = t % (2 * len);
        lemma_fundamental_div_mod(t, 2 * len);
        lemma_mod_bound(t, 2 * len);
        assert(t + len < 256 || off >= len) by (nonlinear_arith)
            requires
                t == (2 * len) * blk + off,
                0 <= off < 2 * len,
                0 <= t < 256,
                layer_of(len, n),
        ;
        let w = zeta_table()[2 * (128int / len + blk)];
        let w2 = zeta_table()[2 * (256int / len - 1 - blk)];
        if off < len {
            lemma_butterfly_scale(g[t], g[t + len], w, c);
        } else {
            lemma_butterfly_scale(g[t - len], g[t], w, c);
            lemma_butterfly_scale(g[t - len], g[t], w2, c);
        }
    }
    assert(fwd_layer(s, len) =~= scale(fwd_layer(g, len), c));
    assert(inv_layer(s, len) =~= scale(inv_layer(g, len), c));
}

/// Scaling by `a` and then by `b` scales by `a b`.
pub proof fn lemma_scale_scale(g: Seq<int>, a: int, b: int)
    ensures
        scale(scale(g, a), b) == scale(g, a * b),
{
    assert forall|t: int| 0 <= t < g.len() implies scale(scale(g, a), b)[t] == scale(g, a * b)[t] by {
        lemma_fmul_cong(g[t], a, g[t], a);
        lemma_fmul_cong(fmul(g[t], a), b, g[t] * a, b);
        assert((g[t] * a) * b == g[t] * (a * b)) by (nonlinear_arith);
    }
    assert(scale(scale(g, a), b) =~= scale(g, a * b));
}

/// Scaling a polynomial by a number that is 1 modulo `Q` changes nothing.
pub proof fn lemma_scale_one(g: Seq<int>, c: int)
    requires
        is_poly(g),
        c % 3329 == 1,
    ensures
        scale(g, c) == g,
{
    assert forall|t: int| 0 <= t < 256 implies scale(g, c)[t] == g[t] by {
        lemma_fmul_cong(g[t], c, g[t], 1);
        lemma_small_mod(g[t] as nat, 3329);
    }
    assert(scale(g, c) =~= g);
}

/// The inverse layers, applied to the forward layers from pair distance
/// `len` down, leave the inverse layers from `2 len` up, applied to `len`
/// times the polynomial.
pub proof fn lemma_inv_from_of_fwd_from(g: Seq<int>, len: int, n: int)
    requires
        g.len() == 256,
        layer_of(len, n),
        len >= 2,
    ensures
        inv_from(fwd_from(g, len), 2) == inv_from(scale(g, len), 2 * len),
    decreases len,
{
    let g1 = fwd_layer(g, len);
    if len == 2 {
        assert(fwd_from(g, 2) == fwd_from(g1, 1));
        assert(fwd_from(g1, 1) == g1);
        lemma_inv_layer_of_fwd_layer(g, 2, n);
    } else {
        let half = len / 2;
        assert(layer_of(half, 2 * n));
        lemma_inv_from_of_fwd_from(g1, half, 2 * n);
        // inv_from(fwd_from(g1, half), 2) == inv_from(scale(g1, half), len)
        lemma_layer_scale(g1, len, n, half);
        lemma_inv_layer_of_fwd_layer(g, len, n);
        lemma_scale_scale(g, 2, half);
        assert(inv_from(scale(g1, half), len) == inv_from(inv_layer(scale(g1, half), len), 2 * len));
    }
}

/// The forward layers, applied to `c` times the inverse layers from pair
/// distance `len` up, leave the forward layers from `len / 2` down, applied
/// to `c 256 / len` times the polynomial.
pub proof fn lemma_fwd_from_of_inv_from(g: Seq<int>, len: int, n: int, c: int)
    requires
        g.len() == 256,
        layer_of(len, n),
        len >= 2,
    ensures
        fwd_from(scale(inv_from(g, len), c), 128) == fwd_from(scale(g, 2 * n * c), len / 2),
    decreases 256 - len,
{
    let g1 = inv_layer(g, len);
    assert(inv_from(g, len) == inv_from(g1, 2 * len));
    if len == 128 {
        assert(inv_from(g1, 256) == g1);
        lemma_layer_scale(g1, 128, 1, c);
        lemma_fwd_layer_of_inv_layer(g, 128, 1);
        lemma_scale_scale(g, 2, c);
        assert(fwd_from(scale(g1, c), 128) == fwd_from(fwd_layer(scale(g1, c), 128), 64));
    } else {
        let m = n / 2;
        assert(layer_of(2 * len, m));
        lemma_fwd_from_of_inv_from(g1, 2 * len, m, c);
        // == fwd_from(scale(g1, 2 * m * c), len)
        let c1 = 2 * m * c;
        lemma_layer_scale(g1, len, n, c1);
        lemma_fwd_layer_of_inv_layer(g, len, n);
        lemma_scale_scale(g, 2, c1);
        assert(2 * c1 == 2 * n * c) by (nonlinear_arith)
            requires
                c1 == 2 * m * c,
                n == 2 * m,
        ;
        assert(fwd_from(scale(g1, c1), len) == fwd_from(fwd_layer(scale(g1, c1), len), len / 2));
    }
}

/// The inverse transform undoes the forward transform: for every polynomial
/// `f` with coefficients in `[0, Q)`, `ntt_inv_spec(ntt_spec(f)) == f`.
pub proof fn lemma_ntt_inv_of_ntt(f: Seq<int>)
    requires
        is_poly(f),
    ensures
        ntt_inv_spec(ntt_spec(f)) == f,
{
    lemma_inv_from_of_fwd_from(f, 128, 1);
    assert(inv_from(scale(f, 128), 256) == scale(f, 128));
    lemma_scale_scale(f, 128, 3303);
    lemma_scale_one(f, 128int * 3303);
}

/// The forward transform undoes the inverse transform: for every polynomial
/// `g` with coefficients in `[0, Q)`, `ntt_spec(ntt_inv_spec(g)) == g`.
pub proof fn lemma_ntt_of_ntt_inv(g: Seq<int>)
    requires
        is_poly(g),
    ensures
        ntt_spec(ntt_inv_spec(g)) == g,
{
    lemma_fwd_from_of_inv_from(g, 2, 64, 3303);
    assert(fwd_from(scale(g, 2int * 64 * 3303), 1) == scale(g, 2int * 64 * 3303));
    lemma_scale_one(g, 2int * 64 * 3303);
}

} // verus!
