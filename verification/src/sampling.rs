//! The two samplers: uniform coefficients by rejection from a stream of
//! bytes, and small coefficients from the centered binomial distribution.
use crate::Q;
use crate::byte_fns::{byte_decode_spec, byte_unpack, lemma_mask_is_mod};
use crate::ntt::fsub;
use crate::types::{all_wf, poly, Z};
use vstd::arithmetic::power2::*;
use vstd::bits::*;
use vstd::prelude::*;

verus! {

/// The number of ones among the binary digits of `x`.
pub open spec fn popcount(x: nat) -> nat
    decreases x,
{
    if x == 0 {
        0
    } else {
        (x % 2) + popcount(x / 2)
    }
}

/// The sum of the eight low binary digits of `v`.
pub open spec fn bit_sum8(v: int) -> int {
    v % 2 + (v / 2) % 2 + (v / 4) % 2 + (v / 8) % 2 + (v / 16) % 2 + (v / 32) % 2 + (v / 64) % 2 + (v
        / 128) % 2
}

/// The number of ones of a value below 256 is the sum of its eight bits.
pub proof fn lemma_popcount8(v: nat)
    requires
        v < 256,
    ensures
        popcount(v) == bit_sum8(v as int),
        popcount(v) <= 8,
{
    reveal_with_fuel(popcount, 10);
    assert(v / 2 / 2 == v / 4);
    assert(v / 4 / 2 == v / 8);
    assert(v / 8 / 2 == v / 16);
    assert(v / 16 / 2 == v / 32);
    assert(v / 32 / 2 == v / 64);
    assert(v / 64 / 2 == v / 128);
    assert(v / 128 / 2 == 0);
}

/// What three rounds of sums of neighbouring bit fields leave in the low 16
/// bits of a word: the bit sum of its low byte, plus 256 times the bit sum
/// of the byte above it.
pub proof fn lemma_field_sums(x: u32, a1: u32, b1: u32, a2: u32, b2: u32, a3: u32, b3: u32)
    requires
        a1 == x & 0x5555_5555,
        b1 == (x >> 1) & 0x5555_5555,
        a2 == (a1 + b1) as u32 & 0x3333_3333,
        b2 == ((a1 + b1) as u32 >> 2) & 0x3333_3333,
        a3 == (a2 + b2) as u32 & 0x0F0F_0F0F,
        b3 == ((a2 + b2) as u32 >> 4) & 0x0F0F_0F0F,
    ensures
        a1 + b1 <= 0xFFFF_FFFF,
        a2 + b2 <= 0xFFFF_FFFF,
        a3 + b3 <= 0xFFFF_FFFF,
        (a3 + b3) % 0x1_0000 == bit_sum8((x % 256) as int) + 256 * bit_sum8(
            ((x / 256) % 256) as int,
        ),
        (a3 + b3) % 0x1_0000 <= 0xFFFF,
{
    assert(a1 <= 0x5555_5555 && b1 <= 0x5555_5555) by (bit_vector)
        requires
            a1 == x & 0x5555_5555,
            b1 == (x >> 1) & 0x5555_5555,
    ;
    let s1: u32 = (a1 + b1) as u32;
    assert(a2 <= 0x3333_3333 && b2 <= 0x3333_3333) by (bit_vector)
        requires
            a2 == s1 & 0x3333_3333,
            b2 == (s1 >> 2) & 0x3333_3333,
    ;
    let s2: u32 = (a2 + b2) as u32;
    assert(a3 <= 0x0F0F_0F0F && b3 <= 0x0F0F_0F0F) by (bit_vector)
        requires
            a3 == s2 & 0x0F0F_0F0F,
            b3 == (s2 >> 4) & 0x0F0F_0F0F,
    ;
    let s3: u32 = (a3 + b3) as u32;
    let lo: u32 = x % 256;
    let hi: u32 = (x / 256) % 256;
    let el: u32 = (lo % 2 + (lo / 2) % 2 + (lo / 4) % 2 + (lo / 8) % 2 + (lo / 16) % 2 + (lo / 32)
        % 2 + (lo / 64) % 2 + (lo / 128) % 2) as u32;
    let eh: u32 = (hi % 2 + (hi / 2) % 2 + (hi / 4) % 2 + (hi / 8) % 2 + (hi / 16) % 2 + (hi / 32)
        % 2 + (hi / 64) % 2 + (hi / 128) % 2) as u32;
    assert(s3 % 0x1_0000 == el + 256 * eh) by (bit_vector)
        requires
            lo == x % 256,
            hi == (x / 256) % 256,
            el == lo % 2 + (lo / 2) % 2 + (lo / 4) % 2 + (lo / 8) % 2 + (lo / 16) % 2 + (lo / 32)
                % 2 + (lo / 64) % 2 + (lo / 128) % 2,
            eh == hi % 2 + (hi / 2) % 2 + (hi / 4) % 2 + (hi / 8) % 2 + (hi / 16) % 2 + (hi / 32)
                % 2 + (hi / 64) % 2 + (hi / 128) % 2,
            a1 == x & 0x5555_5555,
            b1 == (x >> 1) & 0x5555_5555,
            s1 == a1 + b1,
            a2 == s1 & 0x3333_3333,
            b2 == (s1 >> 2) & 0x3333_3333,
            s2 == a2 + b2,
            a3 == s2 & 0x0F0F_0F0F,
            b3 == (s2 >> 4) & 0x0F0F_0F0F,
            s3 == a3 + b3,
    ;
}

/// Counts the ones of each of the two low bytes of `x` by sums of
/// neighbouring fields of 1, 2 and 4 bits, without a branch on `x`: the count
/// of the low byte, plus 256 times the count of the byte above it.
pub fn count_ones(x: u32) -> (r: u16)
    ensures
        r == popcount((x % 256) as nat) + 256 * popcount(((x / 256) % 256) as nat),
{
    let a1: u32 = x & 0x5555_5555;
    let b1: u32 = (x >> 1) & 0x5555_5555;
    proof {
        let s1 = (a1 + b1) as u32;
        let a2 = s1 & 0x3333_3333;
        let b2 = (s1 >> 2) & 0x3333_3333;
        let s2 = (a2 + b2) as u32;
        lemma_field_sums(x, a1, b1, a2, b2, s2 & 0x0F0F_0F0F, (s2 >> 4) & 0x0F0F_0F0F);
        lemma_popcount8((x % 256) as nat);
        lemma_popcount8(((x / 256) % 256) as nat);
    }
    let s1: u32 = a1 + b1;
    let a2: u32 = s1 & 0x3333_3333;
    let b2: u32 = (s1 >> 2) & 0x3333_3333;
    let s2: u32 = a2 + b2;
    let a3: u32 = s2 & 0x0F0F_0F0F;
    let b3: u32 = (s2 >> 4) & 0x0F0F_0F0F;
    let s3: u32 = a3 + b3;
    let r: u16 = (s3 % 0x1_0000) as u16;
    r
}

/// The coefficient that the centered binomial distribution of parameter
/// `eta` gives for the `2 eta` bits `c`: the ones among the low `eta` bits
/// minus the ones among the high `eta` bits, modulo `Q`.
pub open spec fn cbd_coeff(eta: nat, c: int) -> int {
    fsub(
        popcount((c % (pow2(eta) as int)) as nat) as int,
        popcount(((c / (pow2(eta) as int)) % (pow2(eta) as int)) as nat) as int,
    )
}

/// The polynomial that `SamplePolyCBD_eta` gives for `64 eta` bytes:
/// coefficient `i` comes from bits `2 eta i` to `2 eta (i + 1) - 1` of the
/// bytes.
pub open spec fn cbd_spec(eta: nat, b: Seq<u8>) -> Seq<int> {
    byte_decode_spec(2 * eta, b).map_values(|c: int| cbd_coeff(eta, c))
}

/// Samples a polynomial from the centered binomial distribution of parameter
/// `eta`, for `eta` 2 or 3, out of `64 eta` bytes.
pub fn sample_poly_cbd(byte_array_b: &[u8]) -> (r: [Z; 256])
    requires
        byte_array_b@.len() == 128 || byte_array_b@.len() == 192,
    ensures
        all_wf(r@),
        poly(r@) == cbd_spec((byte_array_b@.len() / 64) as nat, byte_array_b@),
{
    let eta: u32 = (byte_array_b.len() / 64) as u32;
    let chunks = byte_unpack(2 * eta, byte_array_b);
    proof {
        lemma_mask_is_mod(0, eta);
        lemma2_to64();
    }
    let mask: u32 = (1u32 << eta) - 1;
    let mut array_f: [Z; 256] = [Z(0); 256];
    let mut i: usize = 0;
    while i < 256
        invariant
            i <= 256,
            eta == 2 || eta == 3,
            mask == (1u32 << eta) - 1,
            forall|t: int| 0 <= t < 256 ==> 0 <= #[trigger] chunks@[t]@ < pow2((2 * eta) as nat),
            forall|t: int| 0 <= t < i ==> (#[trigger] array_f@[t]).wf(),
            forall|t: int|
                0 <= t < i ==> (#[trigger] array_f@[t])@ == cbd_coeff(eta as nat, chunks@[t]@),
        decreases 256 - i,
    {
        let c: u32 = chunks[i].get_u32();
        proof {
            lemma2_to64();
            lemma_mask_is_mod(c, eta);
            lemma_mask_is_mod(c >> eta, eta);
            lemma_u32_shr_is_div(c, eta);
            assert(0 <= chunks@[i as int]@ < pow2((2 * eta) as nat));
            assert(c < 64);
        }
        let x: u16 = count_ones(c & mask);
        let y: u16 = count_ones((c >> eta) & mask);
        proof {
            let lo = (c & mask) as nat;
            let hi = ((c >> eta) & mask) as nat;
            assert(lo < 8 && hi < 8);
            assert(popcount(0) == 0);
            lemma_popcount8(lo);
            lemma_popcount8(hi);
            assert((c & mask) / 256 == 0 && ((c >> eta) & mask) / 256 == 0);
        }
        array_f[i] = Z(x).sub(Z(y));
        i = i + 1;
    }
    proof {
        let n = (byte_array_b@.len() / 64) as nat;
        assert(n == eta);
        assert(poly(chunks@) == byte_decode_spec(2 * n, byte_array_b@));
        assert(poly(array_f@) =~= cbd_spec(n, byte_array_b@));
    }
    array_f
}

/// Candidate `k` of a stream of bytes: each three bytes hold two values of 12
/// bits, the first in the first byte and the low half of the second, the
/// other in the high half of the second and the third.
pub open spec fn candidate(s: Seq<u8>, k: int) -> int {
    let t = k / 2;
    if k % 2 == 0 {
        s[3 * t] + 256 * (s[3 * t + 1] % 16)
    } else {
        s[3 * t + 1] / 16 + 16 * s[3 * t + 2]
    }
}

/// The candidates of a stream, two for each whole three bytes.
pub open spec fn candidates(s: Seq<u8>) -> Seq<int> {
    Seq::new(2 * (s.len() / 3), |k: int| candidate(s, k))
}

/// The candidates below `Q`, in their order.
pub open spec fn accepted(c: Seq<int>) -> Seq<int>
    decreases c.len(),
{
    if c.len() == 0 {
        Seq::empty()
    } else if c.last() < 3329 {
        accepted(c.drop_last()).push(c.last())
    } else {
        accepted(c.drop_last())
    }
}

/// The polynomial that rejection sampling reads off a stream: its first 256
/// candidates below `Q`, where the stream holds that many.
pub open spec fn sample_ntt_spec(s: Seq<u8>) -> Option<Seq<int>> {
    let a = accepted(candidates(s));
    if a.len() >= 256 {
        Some(a.take(256))
    } else {
        None
    }
}

/// What is accepted of the first `n` candidates is the start of what is
/// accepted of all.
pub proof fn lemma_accepted_prefix(c: Seq<int>, n: int)
    requires
        0 <= n <= c.len(),
    ensures
        accepted(c.take(n)).len() <= accepted(c).len(),
        forall|i: int|
            0 <= i < accepted(c.take(n)).len() ==> accepted(c)[i] == accepted(c.take(n))[i],
    decreases c.len(),
{
    if n == c.len() {
        assert(c.take(n) =~= c);
    } else {
        let c1 = c.drop_last();
        assert(c.take(n) =~= c1.take(n));
        lemma_accepted_prefix(c1, n);
    }
}

/// Every accepted candidate lies in `[0, Q)` when every candidate is not
/// negative.
pub proof fn lemma_accepted_push(c: Seq<int>, v: int)
    ensures
        accepted(c.push(v)) == if v < 3329 {
            accepted(c).push(v)
        } else {
            accepted(c)
        },
{
    assert(c.push(v).drop_last() =~= c);
}

/// Reads a polynomial off `stream` by rejection: each three bytes give two
/// candidates of 12 bits, and the first 256 candidates below `Q` are the
/// coefficients. `None` where the stream holds fewer.
pub fn sample_ntt(stream: &[u8]) -> (r: Option<[Z; 256]>)
    ensures
        match r {
            Some(a) => all_wf(a@) && sample_ntt_spec(stream@) == Some(poly(a@)),
            None => sample_ntt_spec(stream@).is_none(),
        },
{
    let ghost c = candidates(stream@);
    let len: usize = stream.len();
    let mut array_a_hat: [Z; 256] = [Z(0); 256];
    let mut j: usize = 0;
    let mut pos: usize = 0;
    let ghost t: int = 0;
    proof {
        assert(c.take(0) =~= Seq::<int>::empty());
    }
    while j < 256 && len - pos >= 3
        invariant
            len == stream@.len(),
            pos <= len,
            c == candidates(stream@),
            pos == 3 * t,
            0 <= t <= len / 3,
            j <= 256,
            j <= accepted(c.take(2 * t)).len(),
            j < 256 ==> j == accepted(c.take(2 * t)).len(),
            forall|i: int| 0 <= i < j ==> (#[trigger] array_a_hat@[i]).wf(),
            forall|i: int|
                0 <= i < j ==> (#[trigger] array_a_hat@[i])@ == accepted(c.take(2 * t))[i],
        decreases len - pos,
    {
        let c0: u32 = stream[pos] as u32;
        let c1: u32 = stream[pos + 1] as u32;
        let c2: u32 = stream[pos + 2] as u32;
        let d1: u32 = c0 + 256 * (c1 % 16);
        let d2: u32 = c1 / 16 + 16 * c2;
        proof {
            let c_a = c.take(2 * t);
            let c_b = c.take(2 * t + 1);
            let c_c = c.take(2 * t + 2);
            assert(t < len / 3);
            assert(c[2 * t] == d1);
            assert(c[2 * t + 1] == d2);
            assert(c_b =~= c_a.push(d1 as int));
            assert(c_c =~= c_b.push(d2 as int));
            lemma_accepted_push(c_a, d1 as int);
            lemma_accepted_push(c_b, d2 as int);
        }
        if d1 < Q as u32 {
            array_a_hat[j] = Z(d1 as u16);
            j = j + 1;
        }
        if d2 < Q as u32 && j < 256 {
            array_a_hat[j] = Z(d2 as u16);
            j = j + 1;
        }
        pos = pos + 3;
        proof {
            t = t + 1;
        }
    }
    proof {
        lemma_accepted_prefix(c, 2 * t);
        if j < 256 {
            assert(t == len / 3);
            assert(c.take(2 * t) =~= c);
        }
    }
    if j == 256 {
        proof {
            assert(poly(array_a_hat@) =~= accepted(c).take(256));
        }
        Some(array_a_hat)
    } else {
        None
    }
}

} // verus!
