//! Packing of `d`-bit coefficients into bytes and back, for `1 <= d <= 12`.
use crate::Error;
use crate::Q;
use crate::radix::{
    digit, digits_in_range, le_value, lemma_digit_of_le_value, lemma_digit_stable, lemma_div_div,
    lemma_le_value_bound, lemma_le_value_of_digits, lemma_le_value_push, lemma_shift_in, regroup,
};
use crate::types::{poly, Z};
use vstd::arithmetic::div_mod::*;
use vstd::arithmetic::power2::*;
use vstd::bits::*;
use vstd::prelude::*;

verus! {

/// The integers that a byte string stands for.
pub open spec fn ints(b: Seq<u8>) -> Seq<int> {
    b.map_values(|x: u8| x as int)
}

/// Each coefficient reduced to its `d` low bits.
pub open spec fn low_bits(f: Seq<int>, d: nat) -> Seq<int> {
    f.map_values(|x: int| x % (pow2(d) as int))
}

/// The `32 d` bytes that hold the `d` low bits of each coefficient of `f`,
/// first coefficient and least significant bit first: the bytes are the
/// digits in radix `2^8` of the number whose digits in radix `2^d` are the
/// coefficients.
pub open spec fn byte_encode_spec(d: nat, f: Seq<int>) -> Seq<u8> {
    Seq::new(32 * d, |k: int| digit(le_value(low_bits(f, d), d), 8, k as nat) as u8)
}

/// The 256 coefficients of `d` bits each that the bytes `b` hold: the digits
/// in radix `2^d` of the number whose digits in radix `2^8` are the bytes.
pub open spec fn byte_decode_spec(d: nat, b: Seq<u8>) -> Seq<int> {
    regroup(ints(b), 8, d, 256)
}

/// The least value that a decoded coefficient of `d` bits must stay below:
/// `2^d`, or `Q` for `d = 12`.
pub open spec fn decode_bound(d: nat) -> int {
    if d < 12 {
        pow2(d) as int
    } else {
        Q as int
    }
}

/// The mask `(1 << d) - 1` keeps a value modulo `2^d`.
pub proof fn lemma_mask_is_mod(x: u32, d: u32)
    requires
        d < 32,
    ensures
        (1u32 << d) == pow2(d as nat),
        x & (((1u32 << d) - 1) as u32) == x as int % (pow2(d as nat) as int),
{
    lemma_u32_pow2_no_overflow(d as nat);
    lemma_u32_shl_is_mul(1u32, d);
    lemma_u32_low_bits_mask_is_mod(x, d as nat);
    lemma_pow2_pos(d as nat);
}

/// Bits placed above those of a shorter value are added to it.
pub proof fn lemma_or_is_add(temp: u32, c: u32, s: u32)
    requires
        s < 16,
        c < 0x1000,
        temp < pow2(s as nat),
    ensures
        temp | (c << s) == temp + c * pow2(s as nat),
        temp + c * pow2(s as nat) < 0x1000_0000,
{
    lemma_u32_pow2_no_overflow(s as nat);
    lemma_u32_shl_is_mul(1u32, s);
    let p: u32 = 1u32 << s;
    assert(p == pow2(s as nat));
    assert(temp | (c << s) == temp + c * p && temp + c * p < 0x1000_0000u32) by (bit_vector)
        requires
            s < 16,
            c < 0x1000,
            p == 1u32 << s,
            temp < p,
    ;
}

/// A number below `2^(a + b)` divided by `2^a` is below `2^b`.
pub proof fn lemma_div_bound(n: int, a: nat, b: nat)
    requires
        0 <= n < pow2(a + b),
    ensures
        0 <= n / (pow2(a) as int) < pow2(b),
{
    lemma_pow2_pos(a);
    lemma_pow2_adds(a, b);
    let pa = pow2(a) as int;
    let pb = pow2(b) as int;
    lemma_fundamental_div_mod(n, pa);
    lemma_mod_bound(n, pa);
    let q = n / pa;
    let r = n % pa;
    assert(0 <= q < pb) by (nonlinear_arith)
        requires
            n == pa * q + r,
            0 <= r < pa,
            0 <= n < pa * pb,
    ;
}

/// Packs the `d` low bits of each of the 256 coefficients into the `32 d`
/// bytes of `bytes_b` that start at `offset`, and leaves the other bytes as
/// they are.
///
/// A 32-bit buffer takes each coefficient above the bits it still holds and
/// gives off its low byte whenever it holds eight bits or more.
pub fn byte_encode_at(d: u32, integers_f: &[Z; 256], bytes_b: &mut [u8], offset: usize)
    requires
        1 <= d <= 12,
        offset + 32 * d <= old(bytes_b)@.len(),
    ensures
        final(bytes_b)@.len() == old(bytes_b)@.len(),
        final(bytes_b)@.subrange(offset as int, offset + 32 * d) == byte_encode_spec(
            d as nat,
            poly(integers_f@),
        ),
        forall|k: int|
            0 <= k < offset || offset + 32 * d <= k < old(bytes_b)@.len() ==> final(bytes_b)@[k]
                == old(bytes_b)@[k],
{
    let ghost m = low_bits(poly(integers_f@), d as nat);
    proof {
        lemma_mask_is_mod(0, d);
        lemma_pow2_pos(d as nat);
        lemma2_to64();
        assert(m.take(0).len() == 0);
        assert(8 * 0 == 0);
    }
    let mask: u32 = (1u32 << d) - 1;
    let total: usize = bytes_b.len();
    let mut temp: u32 = 0;
    let mut bit_index: u32 = 0;
    let mut byte_index: usize = 0;
    let mut i: usize = 0;
    while i < 256
        invariant
            1 <= d <= 12,
            i <= 256,
            mask == (1u32 << d) - 1,
            m == low_bits(poly(integers_f@), d as nat),
            bytes_b@.len() == old(bytes_b)@.len(),
            bytes_b@.len() == total,
            offset + 32 * d <= bytes_b@.len(),
            bit_index < 8,
            byte_index <= 32 * d,
            bit_index + 8 * byte_index == d * i,
            temp == le_value(m.take(i as int), d as nat) / (pow2((8 * byte_index) as nat) as int),
            forall|k: int|
                0 <= k < byte_index ==> #[trigger] bytes_b@[offset + k] == digit(
                    le_value(m.take(i as int), d as nat),
                    8,
                    k as nat,
                ),
            forall|k: int|
                0 <= k < offset || offset + 32 * d <= k < bytes_b@.len() ==> bytes_b@[k] == old(
                    bytes_b,
                )@[k],
        decreases 256 - i,
    {
        let ghost v0 = le_value(m.take(i as int), d as nat);
        let ghost v1 = le_value(m.take(i + 1), d as nat);
        let coeff: u32 = integers_f[i].get_u32() & mask;
        proof {
            let dn = d as nat;
            lemma_mask_is_mod(integers_f[i as int].0 as u32, d);
            lemma_pow2_pos(dn);
            lemma_mod_bound(integers_f[i as int].0 as int, pow2(dn) as int);
            assert(coeff == m[i as int]);
            assert(pow2(dn) <= 0x1000) by {
                lemma2_to64();
                if dn < 12 {
                    lemma_pow2_strictly_increases(dn, 12);
                }
            }
            assert(m.take(i + 1) =~= m.take(i as int).push(m[i as int]));
            lemma_le_value_push(m.take(i as int), m[i as int], dn);
            assert(digits_in_range(m.take(i as int), dn)) by {
                assert forall|t: int| 0 <= t < i implies 0 <= #[trigger] m.take(i as int)[t] < pow2(
                    dn,
                ) by {
                    lemma_mod_bound(poly(integers_f@)[t], pow2(dn) as int);
                }
            }
            lemma_le_value_bound(m.take(i as int), dn);
            assert(dn * i == 8 * byte_index + bit_index);
            assert(dn * (i as nat) == (8 * byte_index) as nat + bit_index as nat);
            lemma_div_bound(v0, (8 * byte_index) as nat, bit_index as nat);
            lemma_or_is_add(temp, coeff, bit_index);
            lemma_u32_shl_is_mul(coeff, bit_index);
            lemma_shift_in(v0, m[i as int], dn * (i as nat), (8 * byte_index) as nat);
            assert((dn * (i as nat) - (8 * byte_index) as nat) as nat == bit_index as nat);
            assert(d * (i + 1) == d * i + d) by (nonlinear_arith);
            assert forall|k: int| 0 <= k < byte_index implies #[trigger] bytes_b@[offset + k]
                == digit(v1, 8, k as nat) by {
                lemma_digit_stable(v0, m[i as int], dn * (i as nat), 8, k as nat);
            }
        }
        temp = temp | (coeff << bit_index);
        bit_index = bit_index + d;
        while bit_index > 7
            invariant
                1 <= d <= 12,
                i < 256,
                bytes_b@.len() == old(bytes_b)@.len(),
                bytes_b@.len() == total,
                offset + 32 * d <= bytes_b@.len(),
                v1 == le_value(m.take(i + 1), d as nat),
                0 <= v1,
                bit_index < 20,
                byte_index <= 32 * d,
                bit_index + 8 * byte_index == d * (i + 1),
                temp == v1 / (pow2((8 * byte_index) as nat) as int),
                forall|k: int|
                    0 <= k < byte_index ==> #[trigger] bytes_b@[offset + k] == digit(
                        v1,
                        8,
                        k as nat,
                    ),
                forall|k: int|
                    0 <= k < offset || offset + 32 * d <= k < bytes_b@.len() ==> bytes_b@[k]
                        == old(bytes_b)@[k],
            decreases bit_index,
        {
            proof {
                assert(d * (i + 1) <= d * 256) by (nonlinear_arith)
                    requires
                        i + 1 <= 256,
                        d >= 0,
                ;
                lemma2_to64();
                lemma_u32_shr_is_div(temp, 8u32);
                lemma_mask_is_mod(temp, 8u32);
                assert((1u32 << 8u32) - 1 == 0xFF);
                lemma_div_div(v1, (8 * byte_index) as nat, 8);
                assert(8 * (byte_index as nat) == (8 * byte_index) as nat);
                assert(d * 256 == 256 * d) by (nonlinear_arith);
                assert(byte_index < 32 * d);
            }
            let low: u32 = temp & 0xFF;
            bytes_b[offset + byte_index] = low as u8;
            temp = temp >> 8u32;
            byte_index = byte_index + 1;
            bit_index = bit_index - 8;
        }
        i = i + 1;
    }
    proof {
        assert(d * 256 == 256 * d) by (nonlinear_arith);
        assert(m.take(256) =~= m);
        let out = bytes_b@.subrange(offset as int, offset + 32 * d);
        assert forall|k: int| 0 <= k < 32 * d implies out[k] == byte_encode_spec(
            d as nat,
            poly(integers_f@),
        )[k] by {
            assert(out[k] == bytes_b@[offset + k]);
        }
        assert(out =~= byte_encode_spec(d as nat, poly(integers_f@)));
    }
}

/// Packs the `d` low bits of each of the 256 coefficients into the `32 d`
/// bytes of `bytes_b`.
pub fn byte_encode(d: u32, integers_f: &[Z; 256], bytes_b: &mut [u8])
    requires
        1 <= d <= 12,
        old(bytes_b)@.len() == 32 * d,
    ensures
        final(bytes_b)@ == byte_encode_spec(d as nat, poly(integers_f@)),
{
    byte_encode_at(d, integers_f, bytes_b, 0);
    proof {
        assert(bytes_b@.subrange(0, 32 * d) =~= bytes_b@);
    }
}

/// Unpacks `32 d` bytes into 256 values of `d` bits each, with no check of
/// their range.
///
/// A 32-bit buffer takes each byte above the bits it still holds and gives
/// off its `d` low bits whenever it holds `d` bits or more.
pub fn byte_unpack(d: u32, bytes_b: &[u8]) -> (r: [Z; 256])
    requires
        1 <= d <= 12,
        bytes_b@.len() == 32 * d,
    ensures
        poly(r@) == byte_decode_spec(d as nat, bytes_b@),
        forall|i: int| 0 <= i < 256 ==> 0 <= #[trigger] r@[i]@ < pow2(d as nat),
{
    let ghost b = ints(bytes_b@);
    proof {
        lemma_mask_is_mod(0, d);
        lemma_pow2_pos(d as nat);
        lemma2_to64();
        assert(b.take(0).len() == 0);
        assert(d * 0 == 0);
    }
    let mut integers_f: [Z; 256] = [Z(0); 256];
    let mask: u32 = (1u32 << d) - 1;
    let len: usize = bytes_b.len();
    let mut temp: u32 = 0;
    let mut bit_index: u32 = 0;
    let mut int_index: usize = 0;
    let mut j: usize = 0;
    while j < len
        invariant
            1 <= d <= 12,
            len == 32 * d,
            bytes_b@.len() == len,
            b == ints(bytes_b@),
            j <= len,
            mask == (1u32 << d) - 1,
            bit_index < d,
            int_index <= 256,
            bit_index + d * int_index == 8 * j,
            temp == le_value(b.take(j as int), 8) / (pow2((d * int_index) as nat) as int),
            forall|t: int|
                0 <= t < int_index ==> (#[trigger] integers_f@[t]).0 == digit(
                    le_value(b.take(j as int), 8),
                    d as nat,
                    t as nat,
                ),
        decreases len - j,
    {
        let ghost w0 = le_value(b.take(j as int), 8);
        let ghost w1 = le_value(b.take(j + 1), 8);
        let byte: u32 = bytes_b[j] as u32;
        proof {
            let dn = d as nat;
            lemma2_to64();
            assert(byte == b[j as int]);
            assert(b.take(j + 1) =~= b.take(j as int).push(b[j as int]));
            lemma_le_value_push(b.take(j as int), b[j as int], 8);
            assert(digits_in_range(b.take(j as int), 8));
            lemma_le_value_bound(b.take(j as int), 8);
            assert(8 * (j as nat) == (d * int_index) as nat + bit_index as nat);
            lemma_div_bound(w0, (d * int_index) as nat, bit_index as nat);
            lemma_or_is_add(temp, byte, bit_index);
            lemma_u32_shl_is_mul(byte, bit_index);
            lemma_shift_in(w0, b[j as int], 8 * (j as nat), (d * int_index) as nat);
            assert((8 * (j as nat) - (d * int_index) as nat) as nat == bit_index as nat);
            assert forall|t: int| 0 <= t < int_index implies (#[trigger] integers_f@[t]).0
                == digit(w1, dn, t as nat) by {
                assert(dn * ((t as nat) + 1) <= d * int_index) by (nonlinear_arith)
                    requires
                        0 <= t < int_index,
                        dn == d,
                ;
                lemma_digit_stable(w0, b[j as int], 8 * (j as nat), dn, t as nat);
            }
        }
        temp = temp | (byte << bit_index);
        bit_index = bit_index + 8;
        while bit_index >= d
            invariant
                1 <= d <= 12,
                len == 32 * d,
                j < len,
                mask == (1u32 << d) - 1,
                w1 == le_value(b.take(j + 1), 8),
                0 <= w1,
                bit_index < 20,
                int_index <= 256,
                bit_index + d * int_index == 8 * (j + 1),
                temp == w1 / (pow2((d * int_index) as nat) as int),
                forall|t: int|
                    0 <= t < int_index ==> (#[trigger] integers_f@[t]).0 == digit(
                        w1,
                        d as nat,
                        t as nat,
                    ),
            decreases bit_index,
        {
            proof {
                let dn = d as nat;
                assert(int_index < 256) by (nonlinear_arith)
                    requires
                        bit_index + d * int_index == 8 * (j + 1),
                        bit_index >= d,
                        j + 1 <= 32 * d,
                        d >= 1,
                ;
                lemma_u32_shr_is_div(temp, d);
                lemma_mask_is_mod(temp, d);
                lemma_pow2_pos(dn);
                lemma_mod_bound(temp as int, pow2(dn) as int);
                assert(pow2(dn) <= 0x1000) by {
                    lemma2_to64();
                    if dn < 12 {
                        lemma_pow2_strictly_increases(dn, 12);
                    }
                }
                lemma_div_div(w1, (d * int_index) as nat, dn);
                assert(d * (int_index + 1) == d * int_index + d) by (nonlinear_arith);
                assert(dn * (int_index as nat) == (d * int_index) as nat);
            }
            let low: u32 = temp & mask;
            integers_f[int_index] = Z(low as u16);
            temp = temp >> d;
            bit_index = bit_index - d;
            int_index = int_index + 1;
        }
        j = j + 1;
    }
    proof {
        assert(int_index == 256) by (nonlinear_arith)
            requires
                bit_index + d * int_index == 8 * (32 * d),
                bit_index < d,
                int_index <= 256,
                d >= 1,
        ;
        assert(b.take(len as int) =~= b);
        assert(poly(integers_f@) =~= byte_decode_spec(d as nat, bytes_b@));
        assert forall|i: int| 0 <= i < 256 implies 0 <= #[trigger] integers_f@[i]@ < pow2(
            d as nat,
        ) by {
            lemma_mod_bound(le_value(b, 8) / (pow2((d as nat) * (i as nat)) as int), pow2(d as nat) as int);
        }
    }
    integers_f
}

/// Unpacks `32 d` bytes into 256 coefficients of `d` bits each.
///
/// For `d = 12` a coefficient that is not below `Q` is refused: that is the
/// modulus check on an encapsulation key that comes from outside. For
/// `d < 12` every byte string is accepted.
pub fn byte_decode(d: u32, bytes_b: &[u8]) -> (r: Result<[Z; 256], Error>)
    requires
        1 <= d <= 12,
        bytes_b@.len() == 32 * d,
    ensures
        match r {
            Ok(f) => {
                &&& poly(f@) == byte_decode_spec(d as nat, bytes_b@)
                &&& forall|i: int| 0 <= i < 256 ==> 0 <= #[trigger] f@[i]@ < decode_bound(d as nat)
            },
            Err(e) => {
                &&& e == Error::InvalidEncoding
                &&& d == 12
                &&& exists|i: int|
                    0 <= i < 256 && #[trigger] byte_decode_spec(12, bytes_b@)[i] >= Q
            },
        },
{
    let integers_f = byte_unpack(d, bytes_b);
    proof {
        lemma_mask_is_mod(0, d);
    }
    // Only for d = 12 can a coefficient of d bits reach the bound.
    let bound: u32 = if d < 12 {
        1u32 << d
    } else {
        Q as u32
    };
    proof {
        lemma_pow2_pos(d as nat);
        lemma2_to64();
        if d < 12 {
            lemma_pow2_strictly_increases(d as nat, 12);
        }
    }
    // The coefficients may be secret: each is held against the bound by the
    // sign of a difference, and the outcomes are joined without a branch.
    let mut ok: u32 = 1;
    let mut i: usize = 0;
    while i < 256
        invariant
            i <= 256,
            1 <= bound <= 0x1000,
            bound == decode_bound(d as nat),
            ok <= 1,
            ok == 1 <==> forall|t: int| 0 <= t < i ==> (#[trigger] integers_f@[t]).0 < bound,
        decreases 256 - i,
    {
        let v: u32 = integers_f[i].get_u32();
        let diff: u32 = v.wrapping_sub(bound);
        proof {
            lemma_sign_bit(diff, ok);
        }
        let below: u32 = diff >> 31;
        ok = ok & below;
        i = i + 1;
    }
    if ok == 1 {
        Ok(integers_f)
    } else {
        proof {
            let t = choose|t: int| 0 <= t < 256 && !((#[trigger] integers_f@[t]).0 < bound);
            assert(poly(integers_f@)[t] == integers_f@[t].0);
            assert(byte_decode_spec(d as nat, bytes_b@)[t] >= bound);
        }
        Err(Error::InvalidEncoding)
    }
}

/// The top bit of a 32-bit word tells whether the word stands for a
/// negative difference, and the join of two flags is 1 where both are.
pub proof fn lemma_sign_bit(diff: u32, flag: u32)
    requires
        flag <= 1,
    ensures
        diff >= 0x8000_0000 ==> diff >> 31 == 1,
        diff < 0x8000_0000 ==> diff >> 31 == 0,
        flag & (diff >> 31) <= 1,
        flag & (diff >> 31) == 1 <==> flag == 1 && diff >> 31 == 1,
{
    assert(diff >= 0x8000_0000u32 ==> diff >> 31 == 1) by (bit_vector);
    assert(diff < 0x8000_0000u32 ==> diff >> 31 == 0) by (bit_vector);
    let s: u32 = diff >> 31;
    assert(flag & s <= 1 && (flag & s == 1 <==> flag == 1 && s == 1)) by (bit_vector)
        requires
            flag <= 1,
            s <= 1,
    ;
}

/// Decoding and then encoding gives the bytes back: for every `d >= 1` and
/// every byte string `b` of `32 d` bytes,
/// `byte_encode_spec(d, byte_decode_spec(d, b)) == b`.
pub proof fn lemma_encode_of_decode(d: nat, b: Seq<u8>)
    requires
        d >= 1,
        b.len() == 32 * d,
    ensures
        byte_encode_spec(d, byte_decode_spec(d, b)) == b,
{
    let n = le_value(ints(b), 8);
    let dec = byte_decode_spec(d, b);
    lemma_pow2_pos(d);
    lemma2_to64();
    assert(digits_in_range(ints(b), 8));
    lemma_le_value_bound(ints(b), 8);
    assert(8 * b.len() == d * 256) by (nonlinear_arith)
        requires
            b.len() == 32 * d,
    ;
    assert(low_bits(dec, d) =~= dec) by {
        assert forall|i: int| 0 <= i < 256 implies low_bits(dec, d)[i] == dec[i] by {
            lemma_mod_twice(n / (pow2(d * (i as nat)) as int), pow2(d) as int);
        }
    }
    lemma_le_value_of_digits(n, d, 256);
    assert(dec =~= Seq::new(256, |k: int| digit(n, d, k as nat)));
    assert(le_value(dec, d) == n);
    assert forall|k: int| 0 <= k < 32 * d implies byte_encode_spec(d, dec)[k] == b[k] by {
        lemma_digit_of_le_value(ints(b), 8, k as nat);
    }
    assert(byte_encode_spec(d, dec) =~= b);
}

/// Encoding and then decoding gives the coefficients back: for every `d >= 1`
/// and every 256 coefficients in `[0, 2^d)`,
/// `byte_decode_spec(d, byte_encode_spec(d, f)) == f`.
pub proof fn lemma_decode_of_encode(d: nat, f: Seq<int>)
    requires
        d >= 1,
        f.len() == 256,
        digits_in_range(f, d),
    ensures
        byte_decode_spec(d, byte_encode_spec(d, f)) == f,
{
    let m = le_value(f, d);
    let enc = byte_encode_spec(d, f);
    lemma_pow2_pos(d);
    lemma2_to64();
    assert(low_bits(f, d) =~= f) by {
        assert forall|i: int| 0 <= i < 256 implies low_bits(f, d)[i] == f[i] by {
            lemma_small_mod(f[i] as nat, pow2(d));
        }
    }
    lemma_le_value_bound(f, d);
    assert(d * 256 == 8 * (32 * d)) by (nonlinear_arith);
    let digits8 = Seq::new(32 * d, |k: int| digit(m, 8, k as nat));
    assert(ints(enc) =~= digits8) by {
        assert forall|k: int| 0 <= k < 32 * d implies ints(enc)[k] == digits8[k] by {
            lemma_mod_bound(m / (pow2(8 * (k as nat)) as int), 256);
        }
    }
    lemma_le_value_of_digits(m, 8, 32 * d);
    assert(le_value(ints(enc), 8) == m);
    assert forall|k: int| 0 <= k < 256 implies byte_decode_spec(d, enc)[k] == f[k] by {
        lemma_digit_of_le_value(f, d, k as nat);
    }
    assert(byte_decode_spec(d, enc) =~= f);
}

} // verus!
