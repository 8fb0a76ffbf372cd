//! The number-theoretic transform on polynomials of 256 coefficients, its
//! inverse, and the product of two transformed polynomials.
use crate::{Q, ZETA};
use crate::types::{all_wf, poly, Z};
use vstd::arithmetic::div_mod::*;
use vstd::prelude::*;

verus! {

/// The eight bits of `x` in reverse order.
pub open spec fn bitrev8(x: u8) -> u8 {
    ((x & 1) << 7) | ((x & 2) << 5) | ((x & 4) << 3) | ((x & 8) << 1) | ((x & 16) >> 1) | ((x & 32)
        >> 3) | ((x & 64) >> 5) | ((x & 128) >> 7)
}

/// `u8::reverse_bits` of std: the result holds bit `7 - i` of the argument as
/// its bit `i`.
pub assume_specification[ u8::reverse_bits ](x: u8) -> (r: u8)
    ensures
        r == bitrev8(x),
;

/// Reversing the bits twice gives the byte back.
pub proof fn lemma_bitrev8_involution(x: u8)
    ensures
        bitrev8(bitrev8(x)) == x,
{
    let y = bitrev8(x);
    assert(((y & 1) << 7) | ((y & 2) << 5) | ((y & 4) << 3) | ((y & 8) << 1) | ((y & 16) >> 1) | ((y
        & 32) >> 3) | ((y & 64) >> 5) | ((y & 128) >> 7) == x) by (bit_vector)
        requires
            y == ((x & 1) << 7) | ((x & 2) << 5) | ((x & 4) << 3) | ((x & 8) << 1) | ((x & 16) >> 1)
                | ((x & 32) >> 3) | ((x & 64) >> 5) | ((x & 128) >> 7),
    ;
}

/// `ZETA^e` modulo `Q`.
pub open spec fn zeta_pow(e: nat) -> int
    decreases e,
{
    if e == 0 {
        1
    } else {
        (zeta_pow((e - 1) as nat) * 17) % 3329
    }
}

/// The table of powers of `ZETA` in bit-reversed order: entry `k` is
/// `ZETA^bitrev8(k)` modulo `Q`.
pub open spec fn zeta_table() -> Seq<int> {
    Seq::new(256, |k: int| zeta_pow(bitrev8(k as u8) as nat))
}

/// Sum modulo `Q`.
pub open spec fn fadd(a: int, b: int) -> int {
    (a + b) % 3329
}

/// Difference modulo `Q`.
pub open spec fn fsub(a: int, b: int) -> int {
    (a - b) % 3329
}

/// Product modulo `Q`.
pub open spec fn fmul(a: int, b: int) -> int {
    (a * b) % 3329
}

/// Whether `f` holds 256 integers of `[0, Q)`.
pub open spec fn is_poly(f: Seq<int>) -> bool {
    &&& f.len() == 256
    &&& forall|i: int| 0 <= i < 256 ==> 0 <= #[trigger] f[i] < 3329
}

/// One layer of the forward transform. The 256 coefficients fall into blocks
/// of `2 len`; block `b` uses entry `2 (128 / len + b)` of the table as its
/// `z`, and sends each pair `(x, y)` that lies `len` apart to
/// `(x + y z, x - y z)`.
pub open spec fn fwd_layer(g: Seq<int>, len: int) -> Seq<int> {
    Seq::new(
        256,
        |t: int|
            {
                let z = zeta_table()[2 * (128int / len + t / (2 * len))];
                if t % (2 * len) < len {
                    fadd(g[t], fmul(g[t + len], z))
                } else {
                    fsub(g[t - len], fmul(g[t], z))
                }
            },
    )
}

/// The layers of the forward transform from pair distance `len` down to 2.
pub open spec fn fwd_from(g: Seq<int>, len: int) -> Seq<int>
    decreases len,
{
    if len < 2 {
        g
    } else {
        fwd_from(fwd_layer(g, len), len / 2)
    }
}

/// The forward transform: seven layers, with pair distance 128 down to 2.
pub open spec fn ntt_spec(f: Seq<int>) -> Seq<int> {
    fwd_from(f, 128)
}

/// One layer of the inverse transform. Block `b` of `2 len` coefficients uses
/// entry `2 (256 / len - 1 - b)` of the table as its `z`, and sends each pair
/// `(x, y)` that lies `len` apart to `(x + y, z (y - x))`.
pub open spec fn inv_layer(g: Seq<int>, len: int) -> Seq<int> {
    Seq::new(
        256,
        |t: int|
            {
                let z = zeta_table()[2 * (256int / len - 1 - t / (2 * len))];
                if t % (2 * len) < len {
                    fadd(g[t], g[t + len])
                } else {
                    fmul(z, fsub(g[t], g[t - len]))
                }
            },
    )
}

/// The layers of the inverse transform from pair distance `len` up to 128.
pub open spec fn inv_from(g: Seq<int>, len: int) -> Seq<int>
    decreases 256 - len,
{
    if len < 1 || len > 128 {
        g
    } else {
        inv_from(inv_layer(g, len), 2 * len)
    }
}

/// Every coefficient times `c`, modulo `Q`.
pub open spec fn scale(g: Seq<int>, c: int) -> Seq<int> {
    Seq::new(g.len(), |t: int| fmul(g[t], c))
}

/// The inverse transform: seven layers, with pair distance 2 up to 128, and
/// then every coefficient times 3303, the inverse of 128 modulo `Q`.
pub open spec fn ntt_inv_spec(f: Seq<int>) -> Seq<int> {
    scale(inv_from(f, 2), 3303)
}

/// The product of two transformed polynomials: pair `i` of the result is the
/// product of pair `i` of `f` and pair `i` of `g` as polynomials of degree
/// one modulo `X^2 - z`, with entry `128 + i` of the table as `z`.
pub open spec fn multiply_ntts_spec(f: Seq<int>, g: Seq<int>) -> Seq<int> {
    Seq::new(
        256,
        |t: int|
            {
                let i = t / 2;
                let z = zeta_table()[128 + i];
                if t % 2 == 0 {
                    (f[2 * i] * g[2 * i] + f[2 * i + 1] * g[2 * i + 1] * z) % 3329
                } else {
                    (f[2 * i] * g[2 * i + 1] + f[2 * i + 1] * g[2 * i]) % 3329
                }
            },
    )
}

/// The forward transform gives coefficients in `[0, Q)`.
pub proof fn lemma_ntt_is_poly(f: Seq<int>)
    ensures
        is_poly(ntt_spec(f)),
{
    reveal_with_fuel(fwd_from, 8);
    let g = fwd_from(f, 128);
    assert(is_poly(g));
}

/// Whether `zetas` is the table of powers of `ZETA` in bit-reversed order.
pub open spec fn is_zeta_table(zetas: Seq<Z>) -> bool {
    &&& zetas.len() == 256
    &&& all_wf(zetas)
    &&& poly(zetas) == zeta_table()
}

/// Builds the table of the 256 powers of `ZETA` in bit-reversed order.
pub fn gen_zeta_table() -> (r: [Z; 256])
    ensures
        is_zeta_table(r@),
{
    let mut result: [Z; 256] = [Z(0); 256];
    let mut x: u32 = 1;
    let mut i: u32 = 0;
    while i < 256
        invariant
            i <= 256,
            x == zeta_pow(i as nat),
            x < 3329,
            forall|t: u8|
                t < i ==> result@[#[trigger] bitrev8(t) as int].0 == zeta_pow(t as nat),
        decreases 256 - i,
    {
        let k: usize = (i as u8).reverse_bits() as usize;
        proof {
            assert forall|t: u8| t < i implies #[trigger] bitrev8(t) != bitrev8(i as u8) by {
                lemma_bitrev8_involution(t);
                lemma_bitrev8_involution(i as u8);
            }
        }
        result[k] = Z(x as u16);
        assert(x * 17 < 0x1_0000);
        x = (x * (ZETA as u32)) % (Q as u32);
        i = i + 1;
    }
    proof {
        assert forall|k: int| 0 <= k < 256 implies (#[trigger] result@[k]).0 == zeta_table()[k] by {
            lemma_bitrev8_involution(k as u8);
            let t = bitrev8(k as u8);
            assert(result@[bitrev8(t) as int].0 == zeta_pow(t as nat));
        }
        assert forall|k: int| 0 <= k < 256 implies (#[trigger] result@[k]).wf() by {
            lemma_bitrev8_involution(k as u8);
            let t = bitrev8(k as u8);
            assert(result@[bitrev8(t) as int].0 == zeta_pow(t as nat));
            lemma_zeta_pow_range(t as nat);
        }
        assert(poly(result@) =~= zeta_table());
    }
    result
}

/// Every power of `ZETA` modulo `Q` lies in `[0, Q)`.
pub proof fn lemma_zeta_pow_range(e: nat)
    ensures
        0 <= zeta_pow(e) < 3329,
    decreases e,
{
    if e > 0 {
        lemma_zeta_pow_range((e - 1) as nat);
    }
}

/// The product of `a0 + a1 X` and `b0 + b1 X` modulo `X^2 - gamma`.
pub fn base_case_multiply(a0: Z, a1: Z, b0: Z, b1: Z, gamma: Z) -> (c: (Z, Z))
    requires
        a0.wf(),
        a1.wf(),
        b0.wf(),
        b1.wf(),
        gamma.wf(),
    ensures
        c.0.wf(),
        c.1.wf(),
        c.0@ == (a0@ * b0@ + a1@ * b1@ * gamma@) % 3329,
        c.1@ == (a0@ * b1@ + a1@ * b0@) % 3329,
{
    let c0 = a0.base_mul(a1, b0, b1, gamma);
    let c1 = a0.base_mul2(a1, b0, b1);
    (c0, c1)
}

/// Whether `len` is a pair distance of a layer and `n` its first table
/// index: `n len = 128` with `len` a power of two from 1 to 128.
pub open spec fn layer_of(len: int, n: int) -> bool {
    ||| (len == 128 && n == 1)
    ||| (len == 64 && n == 2)
    ||| (len == 32 && n == 4)
    ||| (len == 16 && n == 8)
    ||| (len == 8 && n == 16)
    ||| (len == 4 && n == 32)
    ||| (len == 2 && n == 64)
    ||| (len == 1 && n == 128)
}

/// Whether `len` is a pair distance of a layer of the inverse transform and
/// `top` its first table index: `(top + 1) len = 256`.
pub open spec fn inv_layer_of(len: int, top: int) -> bool {
    ||| (len == 2 && top == 127)
    ||| (len == 4 && top == 63)
    ||| (len == 8 && top == 31)
    ||| (len == 16 && top == 15)
    ||| (len == 32 && top == 7)
    ||| (len == 64 && top == 3)
    ||| (len == 128 && top == 1)
}

/// Where coefficient `t` lies: in block `blk` of `2 len` coefficients, at
/// offset `off`.
pub proof fn lemma_block(t: int, len: int, blk: int, off: int)
    requires
        len > 0,
        0 <= off < 2 * len,
        t == blk * (2 * len) + off,
    ensures
        t / (2 * len) == blk,
        t % (2 * len) == off,
{
    assert(t == (2 * len) * blk + off) by (nonlinear_arith)
        requires
            t == blk * (2 * len) + off,
    ;
    lemma_fundamental_div_mod_converse(t, 2 * len, blk, off);
}

/// The forward transform of `array_f`, seven layers of butterflies in place
/// on a copy. `zetas` is the table that `gen_zeta_table` builds.
pub fn ntt(array_f: &[Z; 256], zetas: &[Z; 256]) -> (r: [Z; 256])
    requires
        all_wf(array_f@),
        is_zeta_table(zetas@),
    ensures
        all_wf(r@),
        poly(r@) == ntt_spec(poly(array_f@)),
{
    let mut f_hat: [Z; 256] = *array_f;
    let mut i: usize = 1;
    let mut len: usize = 128;
    while len >= 2
        invariant
            is_zeta_table(zetas@),
            all_wf(f_hat@),
            layer_of(len as int, i as int),
            fwd_from(poly(f_hat@), len as int) == ntt_spec(poly(array_f@)),
        decreases len,
    {
        let ghost g = poly(f_hat@);
        let ghost n = i as int;
        let ghost blk = 0int;
        let mut start: usize = 0;
        while start < 256
            invariant
                is_zeta_table(zetas@),
                all_wf(f_hat@),
                layer_of(len as int, n),
                len >= 2,
                g.len() == 256,
                0 <= blk,
                start == blk * (2 * len),
                start <= 256,
                i == n + blk,
                forall|t: int| 0 <= t < start ==> (#[trigger] f_hat@[t])@ == fwd_layer(g, len as int)[t],
                forall|t: int| start <= t < 256 ==> (#[trigger] f_hat@[t])@ == g[t],
            decreases 256 - start,
        {
            proof {
                assert(start + 2 * len <= 256 && i < 128) by (nonlinear_arith)
                    requires
                        start == blk * (2 * len),
                        start < 256,
                        layer_of(len as int, n),
                        i == n + blk,
                        len >= 2,
                        0 <= blk,
                ;
            }
            proof {
                assert(i << 1 == 2 * i) by (bit_vector)
                    requires
                        i < 128,
                ;
                assert(zetas@[2 * i].wf());
                assert(poly(zetas@)[2 * i] == zetas@[2 * i]@);
                lemma_fundamental_div_mod_converse(128, len as int, n, 0);
            }
            let zeta = zetas[i << 1];
            i = i + 1;
            let mut j: usize = start;
            while j < start + len
                invariant
                    all_wf(f_hat@),
                    zeta.wf(),
                    zeta@ == zeta_table()[2 * (128int / (len as int) + blk)],
                    len >= 2,
                    g.len() == 256,
                    start == blk * (2 * len),
                    start + 2 * len <= 256,
                    start <= j <= start + len,
                    forall|t: int|
                        (0 <= t < start || start <= t < j || start + len <= t < j + len) ==> (
                        #[trigger] f_hat@[t])@ == fwd_layer(g, len as int)[t],
                    forall|t: int|
                        (j <= t < start + len || j + len <= t < 256) ==> (#[trigger] f_hat@[t])@
                            == g[t],
                decreases start + len - j,
            {
                proof {
                    lemma_block(j as int, len as int, blk, j - start);
                    lemma_block(j + len, len as int, blk, j - start + len);
                }
                let t = f_hat[j + len].mul(zeta);
                let lo = f_hat[j];
                f_hat[j + len] = lo.sub(t);
                f_hat[j] = lo.add(t);
                j = j + 1;
            }
            proof {
                assert((blk + 1) * (2 * len) == blk * (2 * len) + 2 * len) by (nonlinear_arith);
                blk = blk + 1;
            }
            start = start + 2 * len;
        }
        proof {
            assert(poly(f_hat@) =~= fwd_layer(g, len as int));
            assert(blk == n) by (nonlinear_arith)
                requires
                    blk * (2 * len) == 256,
                    layer_of(len as int, n),
            ;
        }
        len = len / 2;
    }
    f_hat
}

/// The inverse transform of `f_hat`, seven layers of butterflies in place on
/// a copy and a last multiplication by 3303. `zetas` is the table that
/// `gen_zeta_table` builds.
pub fn ntt_inv(f_hat: &[Z; 256], zetas: &[Z; 256]) -> (r: [Z; 256])
    requires
        all_wf(f_hat@),
        is_zeta_table(zetas@),
    ensures
        all_wf(r@),
        poly(r@) == ntt_inv_spec(poly(f_hat@)),
{
    let mut f: [Z; 256] = *f_hat;
    let mut i: usize = 127;
    let mut len: usize = 2;
    while len <= 128
        invariant
            is_zeta_table(zetas@),
            all_wf(f@),
            inv_layer_of(len as int, i as int) || (len == 256 && i == 0),
            inv_from(poly(f@), len as int) == inv_from(poly(f_hat@), 2),
        decreases 256 - len,
    {
        let ghost g = poly(f@);
        let ghost top = i as int;
        let ghost blk = 0int;
        let mut start: usize = 0;
        while start < 256
            invariant
                is_zeta_table(zetas@),
                all_wf(f@),
                inv_layer_of(len as int, top),
                g.len() == 256,
                0 <= blk,
                start == blk * (2 * len),
                start <= 256,
                i == top - blk,
                forall|t: int| 0 <= t < start ==> (#[trigger] f@[t])@ == inv_layer(g, len as int)[t],
                forall|t: int| start <= t < 256 ==> (#[trigger] f@[t])@ == g[t],
            decreases 256 - start,
        {
            proof {
                assert(start + 2 * len <= 256 && 1 <= i && i < 128) by (nonlinear_arith)
                    requires
                        start == blk * (2 * len),
                        start < 256,
                        inv_layer_of(len as int, top),
                        i == top - blk,
                        0 <= blk,
                ;
                assert(i << 1 == 2 * i) by (bit_vector)
                    requires
                        i < 128,
                ;
                assert(zetas@[2 * i].wf());
                assert(poly(zetas@)[2 * i] == zetas@[2 * i]@);
                lemma_fundamental_div_mod_converse(256, len as int, top + 1, 0);
            }
            let zeta = zetas[i << 1];
            i = i - 1;
            let mut j: usize = start;
            while j < start + len
                invariant
                    all_wf(f@),
                    zeta.wf(),
                    zeta@ == zeta_table()[2 * (256int / (len as int) - 1 - blk)],
                    len >= 2,
                    g.len() == 256,
                    start == blk * (2 * len),
                    start + 2 * len <= 256,
                    start <= j <= start + len,
                    forall|t: int|
                        (0 <= t < start || start <= t < j || start + len <= t < j + len) ==> (
                        #[trigger] f@[t])@ == inv_layer(g, len as int)[t],
                    forall|t: int|
                        (j <= t < start + len || j + len <= t < 256) ==> (#[trigger] f@[t])@
                            == g[t],
                decreases start + len - j,
            {
                proof {
                    lemma_block(j as int, len as int, blk, j - start);
                    lemma_block(j + len, len as int, blk, j - start + len);
                }
                let t = f[j];
                let hi = f[j + len];
                f[j] = t.add(hi);
                f[j + len] = zeta.mul(hi.sub(t));
                j = j + 1;
            }
            proof {
                assert((blk + 1) * (2 * len) == blk * (2 * len) + 2 * len) by (nonlinear_arith);
                blk = blk + 1;
            }
            start = start + 2 * len;
        }
        proof {
            assert(poly(f@) =~= inv_layer(g, len as int));
            assert(2 * blk == top + 1) by (nonlinear_arith)
                requires
                    blk * (2 * len) == 256,
                    inv_layer_of(len as int, top),
            ;
        }
        len = 2 * len;
    }
    let ghost g = poly(f@);
    let z3303 = Z(3303);
    let mut k: usize = 0;
    while k < 256
        invariant
            k <= 256,
            z3303.0 == 3303,
            g.len() == 256,
            all_wf(f@),
            forall|t: int| 0 <= t < k ==> (#[trigger] f@[t])@ == fmul(g[t], 3303),
            forall|t: int| k <= t < 256 ==> (#[trigger] f@[t])@ == g[t],
        decreases 256 - k,
    {
        f[k] = f[k].mul(z3303);
        k = k + 1;
    }
    proof {
        assert(poly(f@) =~= scale(g, 3303));
    }
    f
}

/// The product of two transformed polynomials, pair by pair. `zetas` is the
/// table that `gen_zeta_table` builds.
pub fn multiply_ntts(f_hat: &[Z; 256], g_hat: &[Z; 256], zetas: &[Z; 256]) -> (r: [Z; 256])
    requires
        all_wf(f_hat@),
        all_wf(g_hat@),
        is_zeta_table(zetas@),
    ensures
        all_wf(r@),
        poly(r@) == multiply_ntts_spec(poly(f_hat@), poly(g_hat@)),
{
    let mut h_hat: [Z; 256] = [Z(0); 256];
    let mut i: usize = 0;
    while i < 128
        invariant
            i <= 128,
            all_wf(f_hat@),
            all_wf(g_hat@),
            is_zeta_table(zetas@),
            forall|t: int| 0 <= t < 2 * i ==> (#[trigger] h_hat@[t]).wf(),
            forall|t: int|
                0 <= t < 2 * i ==> (#[trigger] h_hat@[t])@ == multiply_ntts_spec(
                    poly(f_hat@),
                    poly(g_hat@),
                )[t],
        decreases 128 - i,
    {
        proof {
            assert(i ^ 0x80 == i + 128) by (bit_vector)
                requires
                    i < 128,
            ;
            assert(zetas@[128 + i].wf());
            assert(poly(zetas@)[128 + i] == zetas@[128 + i]@);
            assert(poly(f_hat@)[2 * i] == f_hat@[2 * i]@);
            assert(poly(f_hat@)[2 * i + 1] == f_hat@[2 * i + 1]@);
            assert(poly(g_hat@)[2 * i] == g_hat@[2 * i]@);
            assert(poly(g_hat@)[2 * i + 1] == g_hat@[2 * i + 1]@);
            assert(f_hat@[2 * i].wf() && f_hat@[2 * i + 1].wf());
            assert(g_hat@[2 * i].wf() && g_hat@[2 * i + 1].wf());
        }
        let zt = zetas[i ^ 0x80];
        let (c0, c1) = base_case_multiply(
            f_hat[2 * i],
            f_hat[2 * i + 1],
            g_hat[2 * i],
            g_hat[2 * i + 1],
            zt,
        );
        h_hat[2 * i] = c0;
        h_hat[2 * i + 1] = c1;
        i = i + 1;
    }
    proof {
        assert(poly(h_hat@) =~= multiply_ntts_spec(poly(f_hat@), poly(g_hat@)));
    }
    h_hat
}

} // verus!
