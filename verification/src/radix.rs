//! Numbers written in a power-of-two radix.
//!
//! Packing `d`-bit coefficients into bytes, and unpacking them, both rewrite
//! one natural number from one radix to another: the number whose
//! little-endian digits are the input is the number whose little-endian
//! digits are the output. This module holds that model and its arithmetic.
use vstd::arithmetic::div_mod::*;
use vstd::arithmetic::mul::*;
use vstd::arithmetic::power2::*;
use vstd::prelude::*;

verus! {

/// The number whose little-endian digits, `bits` bits each, are `digits`.
pub open spec fn le_value(digits: Seq<int>, bits: nat) -> int
    decreases digits.len(),
{
    if digits.len() == 0 {
        0
    } else {
        le_value(digits.drop_last(), bits) + digits.last() * pow2(bits * ((digits.len() - 1) as nat))
    }
}

/// Digit `k` of `n` in radix `2^bits`.
pub open spec fn digit(n: int, bits: nat, k: nat) -> int {
    (n / (pow2(bits * k) as int)) % (pow2(bits) as int)
}

/// Whether every digit lies in `[0, 2^bits)`.
pub open spec fn digits_in_range(digits: Seq<int>, bits: nat) -> bool {
    forall|i: int| 0 <= i < digits.len() ==> 0 <= #[trigger] digits[i] < pow2(bits)
}

/// The first `count` digits, `to` bits each, of the number whose digits,
/// `from` bits each, are `digits`.
pub open spec fn regroup(digits: Seq<int>, from: nat, to: nat, count: nat) -> Seq<int> {
    Seq::new(count, |k: int| digit(le_value(digits, from), to, k as nat))
}

/// Appending a digit adds it at the next place.
pub proof fn lemma_le_value_push(s: Seq<int>, x: int, bits: nat)
    ensures
        le_value(s.push(x), bits) == le_value(s, bits) + x * pow2(bits * s.len()),
{
    assert(s.push(x).drop_last() =~= s);
}

/// A number of `len` digits is below `2^(bits * len)`.
pub proof fn lemma_le_value_bound(s: Seq<int>, bits: nat)
    requires
        digits_in_range(s, bits),
    ensures
        0 <= le_value(s, bits) < pow2(bits * s.len()),
    decreases s.len(),
{
    if s.len() == 0 {
        lemma2_to64();
        assert(bits * 0 == 0);
    } else {
        let t = s.drop_last();
        let n = (s.len() - 1) as nat;
        assert(digits_in_range(t, bits)) by {
            assert forall|i: int| 0 <= i < t.len() implies 0 <= #[trigger] t[i] < pow2(bits) by {
                assert(t[i] == s[i]);
            }
        }
        lemma_le_value_bound(t, bits);
        let p = pow2(bits * n) as int;
        let x = s.last();
        assert(0 <= x < pow2(bits));
        lemma_pow2_pos(bits * n);
        assert(bits * s.len() == bits * n + bits) by (nonlinear_arith)
            requires
                s.len() == n + 1,
        ;
        lemma_pow2_adds(bits * n, bits);
        assert(x * p <= (pow2(bits) - 1) * p) by (nonlinear_arith)
            requires
                0 <= x <= pow2(bits) - 1,
                p > 0,
        ;
        assert(0 <= x * p) by (nonlinear_arith)
            requires
                0 <= x,
                p > 0,
        ;
        assert((pow2(bits) - 1) * p == pow2(bits) * p - p) by (nonlinear_arith);
        assert(pow2(bits) * p == p * pow2(bits)) by (nonlinear_arith);
    }
}

/// Dividing by `2^a` and then by `2^b` divides by `2^(a + b)`.
pub proof fn lemma_div_div(n: int, a: nat, b: nat)
    requires
        0 <= n,
    ensures
        (n / (pow2(a) as int)) / (pow2(b) as int) == n / (pow2(a + b) as int),
{
    lemma_pow2_pos(a);
    lemma_pow2_pos(b);
    lemma_pow2_adds(a, b);
    lemma_div_denominator(n, pow2(a) as int, pow2(b) as int);
}

/// Adding a multiple of `2^e` to `n` adds a multiple of `2^(e - a)` to
/// `n / 2^a`, when `e >= a`.
pub proof fn lemma_shift_in(n: int, c: int, e: nat, a: nat)
    requires
        e >= a,
    ensures
        (n + c * pow2(e)) / (pow2(a) as int) == n / (pow2(a) as int) + c * pow2((e - a) as nat),
{
    let pa = pow2(a) as int;
    let pd = pow2((e - a) as nat) as int;
    lemma_pow2_pos(a);
    lemma_pow2_adds((e - a) as nat, a);
    assert(pow2(e) == pd * pa);
    let q = n / pa;
    let r = n % pa;
    lemma_fundamental_div_mod(n, pa);
    assert(n + c * pow2(e) == (q + c * pd) * pa + r) by (nonlinear_arith)
        requires
            n == pa * q + r,
            pow2(e) == pd * pa,
    ;
    lemma_fundamental_div_mod_converse(n + c * pow2(e), pa, q + c * pd, r);
}

/// Adding a multiple of `2^e` leaves every digit that ends at or below bit
/// `e` as it was.
pub proof fn lemma_digit_stable(n: int, c: int, e: nat, bits: nat, k: nat)
    requires
        e >= bits * (k + 1),
    ensures
        digit(n + c * pow2(e), bits, k) == digit(n, bits, k),
{
    let a = bits * k;
    assert(bits * (k + 1) == a + bits) by (nonlinear_arith)
        requires
            a == bits * k,
    ;
    lemma_shift_in(n, c, e, a);
    let rest = (e - a - bits) as nat;
    lemma_pow2_adds(rest, bits);
    assert((e - a) as nat == rest + bits);
    let pb = pow2(bits) as int;
    lemma_pow2_pos(bits);
    let m = c * pow2(rest);
    assert(c * pow2((e - a) as nat) == pb * m) by (nonlinear_arith)
        requires
            pow2((e - a) as nat) == pow2(rest) * pb,
            m == c * pow2(rest),
    ;
    lemma_mod_multiples_vanish(m, n / (pow2(a) as int), pb);
}

/// Each digit of `le_value(s, bits)` is the digit it was built from.
pub proof fn lemma_digit_of_le_value(s: Seq<int>, bits: nat, k: nat)
    requires
        digits_in_range(s, bits),
        k < s.len(),
    ensures
        digit(le_value(s, bits), bits, k) == s[k as int],
    decreases s.len(),
{
    let t = s.drop_last();
    let n = (s.len() - 1) as nat;
    let x = s.last();
    assert(digits_in_range(t, bits)) by {
        assert forall|i: int| 0 <= i < t.len() implies 0 <= #[trigger] t[i] < pow2(bits) by {
            assert(t[i] == s[i]);
        }
    }
    if k < n {
        lemma_digit_of_le_value(t, bits, k);
        assert(bits * n >= bits * (k + 1)) by (nonlinear_arith)
            requires
                n >= k + 1,
        ;
        lemma_digit_stable(le_value(t, bits), x, bits * n, bits, k);
    } else {
        lemma_le_value_bound(t, bits);
        let v = le_value(t, bits);
        let p = pow2(bits * n) as int;
        lemma_pow2_pos(bits * n);
        lemma_pow2_pos(bits);
        assert(0 <= x < pow2(bits));
        assert(v + x * p == p * x + v) by (nonlinear_arith);
        lemma_fundamental_div_mod_converse(v + x * p, p, x, v);
        lemma_small_mod(x as nat, pow2(bits));
    }
}

/// The digits of a number below `2^(bits * count)` give the number back.
pub proof fn lemma_le_value_of_digits(n: int, bits: nat, count: nat)
    requires
        0 <= n < pow2(bits * count),
    ensures
        le_value(Seq::new(count, |k: int| digit(n, bits, k as nat)), bits) == n,
    decreases count,
{
    let s = Seq::new(count, |k: int| digit(n, bits, k as nat));
    if count == 0 {
        lemma2_to64();
        assert(bits * 0 == 0);
    } else {
        let c = (count - 1) as nat;
        let p = pow2(bits * c) as int;
        let pb = pow2(bits) as int;
        lemma_pow2_pos(bits * c);
        lemma_pow2_pos(bits);
        assert(bits * count == bits * c + bits) by (nonlinear_arith)
            requires
                count == c + 1,
        ;
        lemma_pow2_adds(bits * c, bits);
        let lo = n % p;
        let hi = n / p;
        lemma_fundamental_div_mod(n, p);
        lemma_mod_bound(n, p);
        assert(0 <= hi < pb) by (nonlinear_arith)
            requires
                n == p * hi + lo,
                0 <= lo < p,
                0 <= n < p * pb,
                p > 0,
        ;
        lemma_small_mod(hi as nat, pb as nat);
        assert(s.last() == hi);
        let t = Seq::new(c, |k: int| digit(lo, bits, k as nat));
        assert(s.drop_last() =~= t) by {
            assert forall|k: int| 0 <= k < c implies s.drop_last()[k] == t[k] by {
                assert(bits * c >= bits * (k + 1)) by (nonlinear_arith)
                    requires
                        c >= k + 1,
                        k >= 0,
                ;
                assert(n == lo + hi * pow2(bits * c)) by (nonlinear_arith)
                    requires
                        n == p * hi + lo,
                        p == pow2(bits * c),
                ;
                lemma_digit_stable(lo, hi, bits * c, bits, k as nat);
            }
        }
        lemma_le_value_of_digits(lo, bits, c);
    }
}

} // verus!
