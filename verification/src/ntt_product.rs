//! What the product of two transformed polynomials is: the transform of the
//! product of the two polynomials modulo `X^256 + 1`.
use crate::ntt::{
    bitrev8, is_poly, lemma_ntt_is_poly, multiply_ntts_spec, ntt_inv_spec, ntt_spec, zeta_pow,
    zeta_table,
};
use crate::ntt_laws::{lemma_ntt_inv_of_ntt, lemma_zeta_pow_128, lemma_zeta_pow_adds};
use crate::ntt_meaning::{lemma_ntt_is_evaluation, lemma_zeta_pow_period, zsum};
use vstd::arithmetic::div_mod::*;
use vstd::prelude::*;

verus! {

/// Whether `a` and `b` are the same modulo `Q`.
pub open spec fn eqm(a: int, b: int) -> bool {
    a % 3329 == b % 3329
}

/// Sums of numbers that are the same modulo `Q` are the same modulo `Q`.
pub proof fn lemma_eqm_add(a: int, a2: int, b: int, b2: int)
    requires
        eqm(a, a2),
        eqm(b, b2),
    ensures
        eqm(a + b, a2 + b2),
{
    lemma_add_mod_noop(a, b, 3329);
    lemma_add_mod_noop(a2, b2, 3329);
}

/// Products of numbers that are the same modulo `Q` are the same modulo `Q`.
pub proof fn lemma_eqm_mul(a: int, a2: int, b: int, b2: int)
    requires
        eqm(a, a2),
        eqm(b, b2),
    ensures
        eqm(a * b, a2 * b2),
{
    lemma_mul_mod_noop(a, b, 3329);
    lemma_mul_mod_noop(a2, b2, 3329);
}

/// A number and its remainder are the same modulo `Q`.
pub proof fn lemma_eqm_mod(a: int)
    ensures
        eqm(a % 3329, a),
        eqm(a, a % 3329),
{
    lemma_mod_twice(a, 3329);
}

/// Coefficient `k` of `X^i g` modulo `X^256 + 1`: a coefficient of `g`, with
/// its sign changed where it comes round from the top.
pub open spec fn neg_shift(g: Seq<int>, k: int, i: int) -> int {
    if i <= k {
        g[k - i] % 3329
    } else {
        (-g[256 + k - i]) % 3329
    }
}

/// `X^i g` modulo `X^256 + 1`.
pub open spec fn shifted(g: Seq<int>, i: int) -> Seq<int> {
    Seq::new(256, |k: int| neg_shift(g, k, i))
}

/// The sum over `i` below `n` of `f[i]` times coefficient `k` of `X^i g`
/// modulo `X^256 + 1`, modulo `Q`.
pub open spec fn conv(f: Seq<int>, g: Seq<int>, k: int, n: nat) -> int
    decreases n,
{
    if n == 0 {
        0
    } else {
        (conv(f, g, k, (n - 1) as nat) + f[n - 1] * neg_shift(g, k, n - 1)) % 3329
    }
}

/// The sum of the first `n` terms `f[i] X^i g` modulo `X^256 + 1`.
pub open spec fn partial_product(f: Seq<int>, g: Seq<int>, n: nat) -> Seq<int> {
    Seq::new(256, |k: int| conv(f, g, k, n))
}

/// The product of `f` and `g` in the ring of polynomials modulo
/// `X^256 + 1` with coefficients modulo `Q`: coefficient `k` is the sum of
/// the `f[i] g[j]` with `i + j = k` minus the sum of those with
/// `i + j = k + 256`.
pub open spec fn ring_mul(f: Seq<int>, g: Seq<int>) -> Seq<int> {
    partial_product(f, g, 256)
}

/// A sum over the places of `p` follows its terms: where each term of `p` is
/// a term of `a` plus `c` times a term of `b`, modulo `Q`, the sum over `p`
/// is the sum over `a` plus `c` times the sum over `b`.
pub proof fn lemma_zsum_linear(
    p: Seq<int>,
    mp: int,
    a: Seq<int>,
    ma: int,
    c: int,
    b: Seq<int>,
    mb: int,
    e: nat,
    n: nat,
)
    requires
        forall|r: int|
            0 <= r < n ==> eqm(#[trigger] p[mp + 2 * r], a[ma + 2 * r] + c * b[mb + 2 * r]),
    ensures
        eqm(zsum(p, mp, 2, e, n), zsum(a, ma, 2, e, n) + c * zsum(b, mb, 2, e, n)),
    decreases n,
{
    if n > 0 {
        let r = (n - 1) as nat;
        lemma_zsum_linear(p, mp, a, ma, c, b, mb, e, r);
        let w = zeta_pow(e * r);
        let sp = zsum(p, mp, 2, e, r);
        let sa = zsum(a, ma, 2, e, r);
        let sb = zsum(b, mb, 2, e, r);
        let tp = p[mp + 2 * r];
        let ta = a[ma + 2 * r];
        let tb = b[mb + 2 * r];
        assert(eqm(tp, ta + c * tb));
        lemma_eqm_mul(tp, ta + c * tb, w, w);
        lemma_eqm_add(sp, sa + c * sb, tp * w, (ta + c * tb) * w);
        lemma_eqm_mod(sp + tp * w);
        lemma_eqm_mod(sa + ta * w);
        lemma_eqm_mod(sb + tb * w);
        lemma_eqm_mul(c, c, (sb + tb * w) % 3329, sb + tb * w);
        lemma_eqm_add((sa + ta * w) % 3329, sa + ta * w, c * ((sb + tb * w) % 3329), c * (sb + tb * w));
        assert(sa + c * sb + (ta + c * tb) * w == (sa + ta * w) + c * (sb + tb * w))
            by (nonlinear_arith);
    }
}

/// `ZETA^(128 e) = -1` modulo `Q` for every odd `e`.
pub proof fn lemma_zeta_pow_odd_half(e: nat)
    requires
        e % 2 == 1,
    ensures
        zeta_pow(128 * e) == 3328,
{
    let t = e / 2;
    assert(128 * e == 128 + 256 * t) by (nonlinear_arith)
        requires
            e == 2 * t + 1,
    ;
    lemma_zeta_pow_period(128, t);
    lemma_zeta_pow_128();
}

/// The sum over the odd places of `X x` is the sum over the even places of
/// `x`.
pub proof fn lemma_shift_odd(x: Seq<int>, e: nat)
    ensures
        zsum(shifted(x, 1), 1, 2, e, 128) == zsum(x, 0, 2, e, 128),
{
    let sh = shifted(x, 1);
    assert forall|r: int| 0 <= r < 128 implies eqm(
        #[trigger] sh[1 + 2 * r],
        x[0 + 2 * r] + 0 * x[0 + 2 * r],
    ) by {
        lemma_eqm_mod(x[2 * r]);
    }
    lemma_zsum_linear(sh, 1, x, 0, 0, x, 0, e, 128);
    assert(0 * zsum(x, 0, 2, e, 128) == 0);
    lemma_small_mod(zsum(sh, 1, 2, e, 128) as nat, 3329);
    lemma_small_mod(zsum(x, 0, 2, e, 128) as nat, 3329);
}

/// The sum over the first `n` even places of `X x` is `ZETA^e` times the sum
/// over the first `n - 1` odd places of `x`, minus the top coefficient of
/// `x`, which came round to place 0.
pub proof fn lemma_shift_even_part(x: Seq<int>, e: nat, n: nat)
    requires
        1 <= n <= 128,
    ensures
        eqm(
            zsum(shifted(x, 1), 0, 2, e, n),
            -x[255] + zeta_pow(e) * zsum(x, 1, 2, e, (n - 1) as nat),
        ),
    decreases n,
{
    let sh = shifted(x, 1);
    let z = zeta_pow(e);
    if n == 1 {
        assert(zsum(sh, 0, 2, e, 0) == 0);
        assert(zsum(x, 1, 2, e, 0) == 0);
        assert(e * 0 == 0);
        assert(zeta_pow(0) == 1);
        assert(sh[0] == (-x[255]) % 3329);
        assert(zsum(sh, 0, 2, e, 1) == (0 + sh[0int + 2 * 0] * zeta_pow(e * 0)) % 3329);
        lemma_eqm_mod(sh[0]);
        lemma_eqm_mod(-x[255]);
        assert(z * 0 == 0);
    } else {
        let r = (n - 1) as nat;
        lemma_shift_even_part(x, e, r);
        let r1 = (r - 1) as nat;
        let ri = r as int;
        let s_sh = zsum(sh, 0, 2, e, r);
        let s_x = zsum(x, 1, 2, e, r1);
        let w1 = zeta_pow(e * r1);
        let w = zeta_pow(e * r);
        let t = x[2 * ri - 1];
        let u = sh[2 * ri];
        // the new term of the sum over X x
        assert(u == t % 3329);
        assert(zsum(sh, 0, 2, e, n) == (s_sh + sh[0 + 2 * (n - 1)] * w) % 3329);
        // the new term of the sum over x
        assert(1 + 2 * (r - 1) == 2 * ri - 1);
        assert(zsum(x, 1, 2, e, r) == (s_x + x[1 + 2 * (r - 1)] * w1) % 3329);
        // ZETA^e ZETA^(e (r - 1)) = ZETA^(e r)
        lemma_zeta_pow_adds(e * r1, e);
        assert(e * r1 + e == e * r) by (nonlinear_arith)
            requires
                r1 + 1 == r,
        ;
        lemma_eqm_mod(w1 * z);
        assert(eqm(w, w1 * z));
        // left side
        lemma_eqm_mod(s_sh + u * w);
        lemma_eqm_mod(t);
        lemma_eqm_mul(u, t, w, w1 * z);
        lemma_eqm_add(s_sh, -x[255] + z * s_x, u * w, t * (w1 * z));
        // right side
        lemma_eqm_mod(s_x + t * w1);
        lemma_eqm_mul(z, z, zsum(x, 1, 2, e, r), s_x + t * w1);
        lemma_eqm_add(-x[255], -x[255], z * zsum(x, 1, 2, e, r), z * (s_x + t * w1));
        assert(-x[255] + z * s_x + t * (w1 * z) == -x[255] + z * (s_x + t * w1))
            by (nonlinear_arith);
    }
}

/// The sum over the even places of `X x` is `ZETA^e` times the sum over the
/// odd places of `x`, for every odd `e`: the top coefficient comes round with
/// its sign changed, and `ZETA^(128 e)` is `-1`.
pub proof fn lemma_shift_even(x: Seq<int>, e: nat)
    requires
        e % 2 == 1,
    ensures
        eqm(zsum(shifted(x, 1), 0, 2, e, 128), zeta_pow(e) * zsum(x, 1, 2, e, 128)),
{
    let z = zeta_pow(e);
    let s127 = zsum(x, 1, 2, e, 127);
    let w127 = zeta_pow(e * 127);
    lemma_shift_even_part(x, e, 128);
    assert(zsum(x, 1, 2, e, 128) == (s127 + x[1int + 2 * 127] * w127) % 3329);
    lemma_zeta_pow_adds(e * 127, e);
    assert(e * 127 + e == 128 * e) by (nonlinear_arith);
    lemma_zeta_pow_odd_half(e);
    // ZETA^e (s127 + x[255] w127) = ZETA^e s127 - x[255] modulo Q
    lemma_eqm_mod(s127 + x[255] * w127);
    lemma_eqm_mul(z, z, zsum(x, 1, 2, e, 128), s127 + x[255] * w127);
    lemma_eqm_mod(w127 * z);
    assert(eqm(w127 * z, -1));
    lemma_eqm_mul(x[255], x[255], w127 * z, -1);
    lemma_eqm_add(z * s127, z * s127, x[255] * (w127 * z), x[255] * (-1));
    assert(z * (s127 + x[255] * w127) == z * s127 + x[255] * (w127 * z)) by (nonlinear_arith);
    assert(z * s127 + x[255] * (-1) == -x[255] + z * s127) by (nonlinear_arith);
}

/// Multiplying by `X` once more: `X (X^i g) = X^(i + 1) g` modulo
/// `X^256 + 1`.
pub proof fn lemma_shift_again(g: Seq<int>, i: int)
    requires
        g.len() == 256,
        0 <= i < 255,
    ensures
        shifted(shifted(g, i), 1) == shifted(g, i + 1),
{
    let s = shifted(g, i);
    assert forall|k: int| 0 <= k < 256 implies shifted(s, 1)[k] == shifted(g, i + 1)[k] by {
        if k >= 1 {
            lemma_mod_twice(s[k - 1], 3329);
            if i <= k - 1 {
                lemma_mod_twice(g[k - 1 - i], 3329);
            } else {
                lemma_mod_twice(-g[256 + k - 1 - i], 3329);
            }
        } else {
            // the top coefficient of X^i g comes round with its sign changed
            assert(s[255] == g[255 - i] % 3329);
            lemma_sub_mod_noop_right(0, g[255 - i], 3329);
        }
    }
    assert(shifted(s, 1) =~= shifted(g, i + 1));
}

/// A sum over places that all hold 0 is 0.
pub proof fn lemma_zsum_zero(p: Seq<int>, m: int, e: nat, n: nat)
    requires
        forall|r: int| 0 <= r < n ==> #[trigger] p[m + 2 * r] == 0,
    ensures
        zsum(p, m, 2, e, n) == 0,
    decreases n,
{
    if n > 0 {
        lemma_zsum_zero(p, m, e, (n - 1) as nat);
        assert(p[m + 2 * (n - 1)] == 0);
    }
}

/// The two sums of `X^i g`, for `i = 2 r` and `i = 2 r + 1`: those of `g`,
/// times a power of `ZETA^e`, and changing places at each step.
pub proof fn lemma_shift_sums(g: Seq<int>, e: nat, r: nat)
    requires
        g.len() == 256,
        e % 2 == 1,
        r <= 127,
    ensures
        eqm(
            zsum(shifted(g, (2 * r) as int), 0, 2, e, 128),
            zeta_pow(e * r) * zsum(g, 0, 2, e, 128),
        ),
        eqm(
            zsum(shifted(g, (2 * r) as int), 1, 2, e, 128),
            zeta_pow(e * r) * zsum(g, 1, 2, e, 128),
        ),
        eqm(
            zsum(shifted(g, (2 * r + 1) as int), 0, 2, e, 128),
            zeta_pow(e * (r + 1)) * zsum(g, 1, 2, e, 128),
        ),
        eqm(
            zsum(shifted(g, (2 * r + 1) as int), 1, 2, e, 128),
            zeta_pow(e * r) * zsum(g, 0, 2, e, 128),
        ),
    decreases r,
{
    let g0 = zsum(g, 0, 2, e, 128);
    let g1 = zsum(g, 1, 2, e, 128);
    let z = zeta_pow(e);
    let w = zeta_pow(e * r);
    let even = shifted(g, (2 * r) as int);
    let odd = shifted(g, (2 * r + 1) as int);
    if r == 0 {
        assert forall|t: int| 0 <= t < 128 implies eqm(
            #[trigger] even[0 + 2 * t],
            g[0 + 2 * t] + 0 * g[0 + 2 * t],
        ) by {
            lemma_eqm_mod(g[2 * t]);
        }
        lemma_zsum_linear(even, 0, g, 0, 0, g, 0, e, 128);
        assert forall|t: int| 0 <= t < 128 implies eqm(
            #[trigger] even[1 + 2 * t],
            g[1 + 2 * t] + 0 * g[1 + 2 * t],
        ) by {
            lemma_eqm_mod(g[1 + 2 * t]);
        }
        lemma_zsum_linear(even, 1, g, 1, 0, g, 1, e, 128);
        assert(e * 0 == 0);
        assert(zeta_pow(0) == 1);
        assert(0 * g0 == 0 && 0 * g1 == 0 && 1 * g0 == g0 && 1 * g1 == g1);
    } else {
        let r1 = (r - 1) as nat;
        lemma_shift_sums(g, e, r1);
        let before = shifted(g, (2 * r1 + 1) as int);
        assert(2 * r1 + 1 + 1 == 2 * r);
        lemma_shift_again(g, (2 * r1 + 1) as int);
        lemma_shift_even(before, e);
        lemma_shift_odd(before, e);
        // X^(2 r) g from X^(2 r - 1) g
        let w1 = zeta_pow(e * r1);
        assert(e * (r1 + 1) == e * r) by (nonlinear_arith)
            requires
                r1 + 1 == r,
        ;
        lemma_zeta_pow_adds(e * r1, e);
        assert(e * r1 + e == e * r) by (nonlinear_arith)
            requires
                r1 + 1 == r,
        ;
        lemma_eqm_mod(w1 * z);
        lemma_eqm_mul(z, z, zsum(before, 1, 2, e, 128), w1 * g0);
        lemma_eqm_mul(w, w1 * z, g0, g0);
        assert(z * (w1 * g0) == (w1 * z) * g0) by (nonlinear_arith);
    }
    // X^(2 r + 1) g from X^(2 r) g
    lemma_shift_again(g, (2 * r) as int);
    lemma_shift_even(even, e);
    lemma_shift_odd(even, e);
    lemma_zeta_pow_adds(e * r, e);
    assert(e * r + e == e * (r + 1)) by (nonlinear_arith);
    lemma_eqm_mod(w * z);
    lemma_eqm_mul(z, z, zsum(even, 1, 2, e, 128), w * g1);
    lemma_eqm_mul(zeta_pow(e * (r + 1)), w * z, g1, g1);
    assert(z * (w * g1) == (w * z) * g1) by (nonlinear_arith);
    lemma_eqm_mod(zsum(even, 0, 2, e, 128));
}

/// One more term of the product adds its sum: the sums of the first `n + 1`
/// terms `f[i] X^i g` are those of the first `n` plus `f[n]` times those of
/// `X^n g`.
pub proof fn lemma_partial_product_step(f: Seq<int>, g: Seq<int>, e: nat, n: nat, b: int)
    requires
        n < 256,
        0 <= b < 2,
    ensures
        eqm(
            zsum(partial_product(f, g, n + 1), b, 2, e, 128),
            zsum(partial_product(f, g, n), b, 2, e, 128) + f[n as int] * zsum(
                shifted(g, n as int),
                b,
                2,
                e,
                128,
            ),
        ),
{
    let p1 = partial_product(f, g, n + 1);
    let p0 = partial_product(f, g, n);
    let sh = shifted(g, n as int);
    assert forall|r: int| 0 <= r < 128 implies eqm(
        #[trigger] p1[b + 2 * r],
        p0[b + 2 * r] + f[n as int] * sh[b + 2 * r],
    ) by {
        let k = b + 2 * r;
        assert(p1[k] == conv(f, g, k, n + 1));
        assert(p0[k] == conv(f, g, k, n));
        assert(sh[k] == neg_shift(g, k, n as int));
        assert(conv(f, g, k, n + 1) == (conv(f, g, k, n) + f[n as int] * neg_shift(g, k, n as int))
            % 3329);
        lemma_eqm_mod(conv(f, g, k, n) + f[n as int] * neg_shift(g, k, n as int));
    }
    lemma_zsum_linear(p1, b, p0, b, f[n as int], sh, b, e, 128);
}

/// The sums of the first `2 r` terms of the product, by the sums of `g` and
/// the sums of the first `r` even and the first `r` odd terms of `f`.
pub proof fn lemma_partial_product_sums(f: Seq<int>, g: Seq<int>, e: nat, r: nat)
    requires
        g.len() == 256,
        e % 2 == 1,
        r <= 128,
    ensures
        eqm(
            zsum(partial_product(f, g, 2 * r), 0, 2, e, 128),
            zsum(g, 0, 2, e, 128) * zsum(f, 0, 2, e, r) + zeta_pow(e) * zsum(g, 1, 2, e, 128)
                * zsum(f, 1, 2, e, r),
        ),
        eqm(
            zsum(partial_product(f, g, 2 * r), 1, 2, e, 128),
            zsum(g, 1, 2, e, 128) * zsum(f, 0, 2, e, r) + zsum(g, 0, 2, e, 128) * zsum(
                f,
                1,
                2,
                e,
                r,
            ),
        ),
    decreases r,
{
    let g0 = zsum(g, 0, 2, e, 128);
    let g1 = zsum(g, 1, 2, e, 128);
    let z = zeta_pow(e);
    if r == 0 {
        let p = partial_product(f, g, 0);
        assert forall|t: int| 0 <= t < 128 implies #[trigger] p[0 + 2 * t] == 0 by {}
        assert forall|t: int| 0 <= t < 128 implies #[trigger] p[1 + 2 * t] == 0 by {}
        lemma_zsum_zero(p, 0, e, 128);
        lemma_zsum_zero(p, 1, e, 128);
        assert(zsum(f, 0, 2, e, 0) == 0);
        assert(zsum(f, 1, 2, e, 0) == 0);
        assert(g0 * 0 + z * g1 * 0 == 0) by (nonlinear_arith);
        assert(g1 * 0 + g0 * 0 == 0) by (nonlinear_arith);
    } else {
        let r1 = (r - 1) as nat;
        lemma_partial_product_sums(f, g, e, r1);
        let n0 = 2 * r1;
        let n1 = 2 * r1 + 1;
        assert(n1 + 1 == 2 * r);
        let w = zeta_pow(e * r1);
        let w2 = zeta_pow(e * (r1 + 1));
        let a = f[2 * (r - 1)];
        let b = f[2 * (r - 1) + 1];
        let f0 = zsum(f, 0, 2, e, r1);
        let f1 = zsum(f, 1, 2, e, r1);
        let p0 = partial_product(f, g, n0);
        let p1 = partial_product(f, g, n1);
        let p2 = partial_product(f, g, 2 * r);
        let u0 = zsum(shifted(g, n0 as int), 0, 2, e, 128);
        let v0 = zsum(shifted(g, n0 as int), 1, 2, e, 128);
        let u1 = zsum(shifted(g, n1 as int), 0, 2, e, 128);
        let v1 = zsum(shifted(g, n1 as int), 1, 2, e, 128);
        lemma_shift_sums(g, e, r1);
        lemma_partial_product_step(f, g, e, n0, 0);
        lemma_partial_product_step(f, g, e, n0, 1);
        lemma_partial_product_step(f, g, e, n1, 0);
        lemma_partial_product_step(f, g, e, n1, 1);
        // the sums of f, one term further
        assert(zsum(f, 0, 2, e, r) == (f0 + f[0 + 2 * (r - 1)] * w) % 3329);
        assert(zsum(f, 1, 2, e, r) == (f1 + f[1 + 2 * (r - 1)] * w) % 3329);
        lemma_eqm_mod(f0 + a * w);
        lemma_eqm_mod(f1 + b * w);
        lemma_zeta_pow_adds(e * r1, e);
        assert(e * r1 + e == e * (r1 + 1)) by (nonlinear_arith);
        lemma_eqm_mod(w * z);
        assert(eqm(w2, w * z));
        // first sum
        let e0 = zsum(p0, 0, 2, e, 128);
        let e1 = zsum(p1, 0, 2, e, 128);
        let e2 = zsum(p2, 0, 2, e, 128);
        lemma_eqm_mul(a, a, u0, w * g0);
        lemma_eqm_add(e0, g0 * f0 + z * g1 * f1, a * u0, a * (w * g0));
        lemma_eqm_mul(w2, w * z, g1, g1);
        lemma_eqm_mul(b, b, u1, (w * z) * g1);
        lemma_eqm_add(e1, g0 * f0 + z * g1 * f1 + a * (w * g0), b * u1, b * ((w * z) * g1));
        lemma_eqm_mul(g0, g0, zsum(f, 0, 2, e, r), f0 + a * w);
        lemma_eqm_mul(z * g1, z * g1, zsum(f, 1, 2, e, r), f1 + b * w);
        lemma_eqm_add(
            g0 * zsum(f, 0, 2, e, r),
            g0 * (f0 + a * w),
            z * g1 * zsum(f, 1, 2, e, r),
            (z * g1) * (f1 + b * w),
        );
        assert(g0 * (f0 + a * w) == g0 * f0 + a * (w * g0)) by (nonlinear_arith);
        assert((z * g1) * (f1 + b * w) == z * g1 * f1 + b * ((w * z) * g1)) by (nonlinear_arith);
        // second sum
        let d0 = zsum(p0, 1, 2, e, 128);
        let d1 = zsum(p1, 1, 2, e, 128);
        lemma_eqm_mul(a, a, v0, w * g1);
        lemma_eqm_add(d0, g1 * f0 + g0 * f1, a * v0, a * (w * g1));
        lemma_eqm_mul(b, b, v1, w * g0);
        lemma_eqm_add(d1, g1 * f0 + g0 * f1 + a * (w * g1), b * v1, b * (w * g0));
        lemma_eqm_mul(g1, g1, zsum(f, 0, 2, e, r), f0 + a * w);
        lemma_eqm_mul(g0, g0, zsum(f, 1, 2, e, r), f1 + b * w);
        lemma_eqm_add(
            g1 * zsum(f, 0, 2, e, r),
            g1 * (f0 + a * w),
            g0 * zsum(f, 1, 2, e, r),
            g0 * (f1 + b * w),
        );
        assert(g1 * (f0 + a * w) == g1 * f0 + a * (w * g1)) by (nonlinear_arith);
        assert(g0 * (f1 + b * w) == g0 * f1 + b * (w * g0)) by (nonlinear_arith);
    }
}

/// The exponent of the pair `i` of a transform is odd.
pub proof fn lemma_pair_exponent_odd(i: int)
    requires
        0 <= i < 128,
    ensures
        bitrev8((128 + i) as u8) % 2 == 1,
{
    let x: u8 = (128 + i) as u8;
    let r = bitrev8(x);
    assert(r % 2 == 1) by (bit_vector)
        requires
            x >= 128,
            r == ((x & 1) << 7) | ((x & 2) << 5) | ((x & 4) << 3) | ((x & 8) << 1) | ((x & 16) >> 1)
                | ((x & 32) >> 3) | ((x & 64) >> 5) | ((x & 128) >> 7),
    ;
}

/// The product of the transforms is the transform of the product: for
/// polynomials `f` and `g` with coefficients in `[0, Q)`,
/// `multiply_ntts_spec(ntt_spec(f), ntt_spec(g)) == ntt_spec(ring_mul(f, g))`.
pub proof fn lemma_product_of_transforms(f: Seq<int>, g: Seq<int>)
    requires
        is_poly(f),
        is_poly(g),
    ensures
        multiply_ntts_spec(ntt_spec(f), ntt_spec(g)) == ntt_spec(ring_mul(f, g)),
{
    let h = ring_mul(f, g);
    assert(is_poly(h));
    let fh = ntt_spec(f);
    let gh = ntt_spec(g);
    let hh = ntt_spec(h);
    let lhs = multiply_ntts_spec(fh, gh);
    lemma_ntt_is_poly(h);
    assert forall|t: int| 0 <= t < 256 implies lhs[t] == hh[t] by {
        let i = t / 2;
        let b = t % 2;
        let e = bitrev8((128 + i) as u8) as nat;
        let z = zeta_table()[128 + i];
        assert(z == zeta_pow(e));
        lemma_pair_exponent_odd(i);
        lemma_ntt_is_evaluation(f, i, 0);
        lemma_ntt_is_evaluation(f, i, 1);
        lemma_ntt_is_evaluation(g, i, 0);
        lemma_ntt_is_evaluation(g, i, 1);
        lemma_ntt_is_evaluation(h, i, b);
        lemma_partial_product_sums(f, g, e, 128);
        let f0 = zsum(f, 0, 2, e, 128);
        let f1 = zsum(f, 1, 2, e, 128);
        let g0 = zsum(g, 0, 2, e, 128);
        let g1 = zsum(g, 1, 2, e, 128);
        assert(fh[2 * i] == f0 && fh[2 * i + 1] == f1);
        assert(gh[2 * i] == g0 && gh[2 * i + 1] == g1);
        assert(hh[t] == zsum(h, b, 2, e, 128));
        lemma_small_mod(hh[t] as nat, 3329);
        if b == 0 {
            assert(g0 * f0 + z * g1 * f1 == f0 * g0 + f1 * g1 * z) by (nonlinear_arith);
        } else {
            assert(g1 * f0 + g0 * f1 == f0 * g1 + f1 * g0) by (nonlinear_arith);
        }
    }
    assert(lhs =~= hh);
}

/// Multiplication in the ring by way of the transforms: for polynomials `f`
/// and `g` with coefficients in `[0, Q)`, the inverse transform of the
/// product of their transforms is their product modulo `X^256 + 1`.
pub proof fn lemma_ring_mul_by_transforms(f: Seq<int>, g: Seq<int>)
    requires
        is_poly(f),
        is_poly(g),
    ensures
        ntt_inv_spec(multiply_ntts_spec(ntt_spec(f), ntt_spec(g))) == ring_mul(f, g),
{
    lemma_product_of_transforms(f, g);
    assert(is_poly(ring_mul(f, g)));
    lemma_ntt_inv_of_ntt(ring_mul(f, g));
}

} // verus!
