//! The coefficient field and the fixed-size key and ciphertext containers.
use crate::Q;
use crate::constant_time::wipe;
use crate::ml_kem::{valid_dk, valid_ek};
use vstd::prelude::*;

verus! {

/// An element of the field of integers modulo `Q`, held in 16 bits.
#[derive(Clone, Copy)]
pub struct Z(pub u16);

impl View for Z {
    type V = int;

    open spec fn view(&self) -> int {
        self.0 as int
    }
}

impl Default for Z {
    fn default() -> (r: Z)
        ensures
            r.0 == 0,
    {
        Z(0)
    }
}

/// The integers that a sequence of field elements stands for.
pub open spec fn poly(f: Seq<Z>) -> Seq<int> {
    f.map_values(|z: Z| z@)
}

/// Whether every element of the sequence is canonical.
pub open spec fn all_wf(f: Seq<Z>) -> bool {
    forall|i: int| 0 <= i < f.len() ==> (#[trigger] f[i]).wf()
}

/// The multiplier `ceil(2^36 / Q)` used to divide by `Q` without a division.
pub const BARRETT_36: u64 = 20642679;

/// The multiplier `ceil(2^100 / Q)` used to reduce a sum of two products.
pub const BARRETT_100: u128 = 380790207338008231149505319;

/// Shifting a 64-bit value right by 36 divides it by `2^36`.
pub proof fn lemma_shr36(v: u64)
    ensures
        v >> 36 == v / 0x10_0000_0000,
{
    assert(v >> 36 == v / 0x10_0000_0000) by (bit_vector);
}

/// Shifting a 128-bit value right by 100 divides it by `2^100`.
pub proof fn lemma_shr100(v: u128)
    ensures
        v >> 100 == v / 0x10_0000_0000_0000_0000_0000_0000,
{
    assert(v >> 100 == v / 0x10_0000_0000_0000_0000_0000_0000) by (bit_vector);
}

/// Multiplying by `BARRETT_36` and dropping 36 bits is exact division by `Q`
/// for every value below `2^24`.
pub proof fn lemma_barrett36(y: int)
    requires
        0 <= y < 0x100_0000,
    ensures
        (y * 20642679) / 0x10_0000_0000 == y / 3329,
{
    let a = y / 3329;
    let r = y % 3329;
    assert(y == 3329 * a + r);
    assert(y * 20642679 == a * 0x10_0000_0000 + (a * 1655 + r * 20642679));
    assert(0 <= a * 1655 + r * 20642679 < 0x10_0000_0000);
}

/// Multiplying by `BARRETT_100` and dropping 100 bits is exact division by
/// `Q` for every value below `2^36`.
pub proof fn lemma_barrett100(y: int)
    requires
        0 <= y < 0x10_0000_0000,
    ensures
        (y * 380790207338008231149505319) / 0x10_0000_0000_0000_0000_0000_0000 == y / 3329,
{
    let a = y / 3329;
    let r = y % 3329;
    assert(y == 3329 * a + r);
    assert(y * 380790207338008231149505319 == a * 0x10_0000_0000_0000_0000_0000_0000 + (a * 1575
        + r * 380790207338008231149505319));
    assert(0 <= a * 1575 + r * 380790207338008231149505319
        < 0x10_0000_0000_0000_0000_0000_0000);
}

/// The mask that `Z::add` and `Z::sub` fold back in: all of `Q` when the
/// 32-bit word holds a wrapped negative number, nothing when it holds a
/// reduced one.
pub proof fn lemma_borrow_mask(t: u32)
    ensures
        t >= 0xFFFF_0000 ==> (t >> 16) & 3329 == 3329,
        t < 0x1_0000 ==> (t >> 16) & 3329 == 0,
{
    assert(t >= 0xFFFF_0000u32 ==> (t >> 16) & 3329 == 3329) by (bit_vector);
    assert(t < 0x1_0000u32 ==> (t >> 16) & 3329 == 0) by (bit_vector);
}

impl Z {
    /// Whether the stored representative is the canonical one, below `Q`.
    pub open spec fn wf(self) -> bool {
        self.0 < Q
    }

    /// The representative widened to 32 bits.
    pub fn get_u32(self) -> (r: u32)
        ensures
            r == self.0,
    {
        self.0 as u32
    }

    /// Replaces the representative.
    pub fn set_u16(&mut self, a: u16)
        ensures
            final(self).0 == a,
    {
        self.0 = a;
    }

    /// Sum modulo `Q`, without a branch on the operands.
    pub fn add(self, other: Self) -> (r: Self)
        requires
            self.wf(),
            other.wf(),
        ensures
            r.wf(),
            r@ == (self@ + other@) % (Q as int),
    {
        let res: u32 = self.0 as u32 + other.0 as u32;
        let res: u32 = res.wrapping_sub(Q as u32);
        proof {
            lemma_borrow_mask(res);
        }
        let res: u32 = res.wrapping_add((res >> 16) & (Q as u32));
        #[verifier::truncate]
        let out: u16 = res as u16;
        Self(out)
    }

    /// Difference modulo `Q`, without a branch on the operands.
    pub fn sub(self, other: Self) -> (r: Self)
        requires
            self.wf(),
            other.wf(),
        ensures
            r.wf(),
            r@ == (self@ - other@) % (Q as int),
    {
        let res: u32 = (self.0 as u32).wrapping_sub(other.0 as u32);
        proof {
            lemma_borrow_mask(res);
        }
        let res: u32 = res.wrapping_add((res >> 16) & (Q as u32));
        #[verifier::truncate]
        let out: u16 = res as u16;
        Self(out)
    }

    /// Product modulo `Q`, by one multiplication with `BARRETT_36`.
    pub fn mul(self, other: Self) -> (r: Self)
        requires
            self.wf(),
            other.wf(),
        ensures
            r.wf(),
            r@ == (self@ * other@) % (Q as int),
    {
        assert(self.0 * other.0 <= 3328 * 3328) by (nonlinear_arith)
            requires
                self.0 <= 3328,
                other.0 <= 3328,
        ;
        let prod: u32 = self.0 as u32 * other.0 as u32;
        let wide: u64 = prod as u64 * BARRETT_36;
        proof {
            lemma_shr36(wide);
            lemma_barrett36(prod as int);
        }
        assert(wide >> 36 == prod as int / 3329);
        #[verifier::truncate]
        let quot: u32 = (wide >> 36) as u32;
        assert(quot == prod as int / 3329);
        assert(prod as int == 3329 * (prod as int / 3329) + prod as int % 3329);
        assert(quot * (Q as u32) == 3329 * (prod as int / 3329)) by (nonlinear_arith)
            requires
                quot == prod as int / 3329,
                Q == 3329,
        ;
        let rem: u32 = prod - quot * (Q as u32);
        assert(rem == prod as int % 3329);
        #[verifier::truncate]
        let out: u16 = rem as u16;
        Self(out)
    }

    /// First coefficient of `(a0 + a1 X)(b0 + b1 X)` modulo `X^2 - gamma`:
    /// `a0 b0 + a1 b1 gamma` modulo `Q`, with `self` as `a0`.
    pub fn base_mul(self, a1: Self, b0: Self, b1: Self, gamma: Self) -> (r: Self)
        requires
            self.wf(),
            a1.wf(),
            b0.wf(),
            b1.wf(),
            gamma.wf(),
        ensures
            r.wf(),
            r@ == (self@ * b0@ + a1@ * b1@ * gamma@) % (Q as int),
    {
        assert(self.0 * b0.0 <= 3328 * 3328) by (nonlinear_arith)
            requires
                self.0 <= 3328,
                b0.0 <= 3328,
        ;
        assert(a1.0 * b1.0 <= 3328 * 3328) by (nonlinear_arith)
            requires
                a1.0 <= 3328,
                b1.0 <= 3328,
        ;
        assert(a1.0 * b1.0 * gamma.0 <= 3328 * 3328 * 3328) by (nonlinear_arith)
            requires
                0 <= a1.0 * b1.0 <= 3328 * 3328,
                gamma.0 <= 3328,
        ;
        let prod: u64 = self.0 as u64 * b0.0 as u64 + a1.0 as u64 * b1.0 as u64 * gamma.0 as u64;
        let wide: u128 = prod as u128 * BARRETT_100;
        proof {
            lemma_shr100(wide);
            lemma_barrett100(prod as int);
        }
        let quot: u128 = wide >> 100;
        assert(quot == prod as int / 3329);
        assert(prod as int == 3329 * (prod as int / 3329) + prod as int % 3329);
        assert(quot * (Q as u128) == 3329 * (prod as int / 3329)) by (nonlinear_arith)
            requires
                quot == prod as int / 3329,
                Q == 3329,
        ;
        let rem: u128 = prod as u128 - quot * (Q as u128);
        assert(rem == prod as int % 3329);
        #[verifier::truncate]
        let out: u16 = rem as u16;
        Self(out)
    }

    /// Second coefficient of `(a0 + a1 X)(b0 + b1 X)`: `a0 b1 + a1 b0` modulo
    /// `Q`, with `self` as `a0`.
    pub fn base_mul2(self, a1: Self, b0: Self, b1: Self) -> (r: Self)
        requires
            self.wf(),
            a1.wf(),
            b0.wf(),
            b1.wf(),
        ensures
            r.wf(),
            r@ == (self@ * b1@ + a1@ * b0@) % (Q as int),
    {
        assert(self.0 * b1.0 <= 3328 * 3328) by (nonlinear_arith)
            requires
                self.0 <= 3328,
                b1.0 <= 3328,
        ;
        assert(a1.0 * b0.0 <= 3328 * 3328) by (nonlinear_arith)
            requires
                a1.0 <= 3328,
                b0.0 <= 3328,
        ;
        let prod: u32 = self.0 as u32 * b1.0 as u32 + a1.0 as u32 * b0.0 as u32;
        assert(prod < 0x200_0000);
        let wide: u64 = prod as u64 * BARRETT_36;
        proof {
            lemma_shr36(wide);
            lemma_barrett36_wide(prod as int);
        }
        assert(wide >> 36 == prod as int / 3329);
        #[verifier::truncate]
        let quot: u32 = (wide >> 36) as u32;
        assert(quot == prod as int / 3329);
        assert(prod as int == 3329 * (prod as int / 3329) + prod as int % 3329);
        assert(quot * (Q as u32) == 3329 * (prod as int / 3329)) by (nonlinear_arith)
            requires
                quot == prod as int / 3329,
                Q == 3329,
        ;
        let rem: u32 = prod - quot * (Q as u32);
        assert(rem == prod as int % 3329);
        #[verifier::truncate]
        let out: u16 = rem as u16;
        Self(out)
    }
}

/// As `lemma_barrett36`, for every value below `2^25`.
pub proof fn lemma_barrett36_wide(y: int)
    requires
        0 <= y < 0x200_0000,
    ensures
        (y * 20642679) / 0x10_0000_0000 == y / 3329,
{
    let a = y / 3329;
    let r = y % 3329;
    assert(y == 3329 * a + r);
    assert(y * 20642679 == a * 0x10_0000_0000 + (a * 1655 + r * 20642679));
    assert(0 <= a * 1655 + r * 20642679 < 0x10_0000_0000);
}

/// The number of polynomials of the parameter set whose encapsulation keys
/// take `len` bytes.
pub open spec fn ek_k(len: int) -> nat {
    ((len - 32) / 384) as nat
}

/// The number of polynomials of the parameter set whose decapsulation keys
/// take `len` bytes.
pub open spec fn dk_k(len: int) -> nat {
    ((len - 96) / 768) as nat
}

/// Bytes that are set to zero when their holder is dropped.
pub struct SecretBytes<const N: usize>(pub(crate) [u8; N]);

impl<const N: usize> View for SecretBytes<N> {
    type V = Seq<u8>;

    closed spec fn view(&self) -> Seq<u8> {
        self.0@
    }
}

impl<const N: usize> SecretBytes<N> {
    /// A holder of `bytes`.
    pub fn new(bytes: [u8; N]) -> (r: Self)
        ensures
            r@ == bytes@,
    {
        SecretBytes(bytes)
    }

    /// The bytes held.
    pub fn as_bytes(&self) -> (r: &[u8; N])
        ensures
            r@ == self@,
    {
        &self.0
    }

    /// Sets every byte to zero now.
    pub fn clear(&mut self)
        ensures
            final(self)@.len() == N,
            forall|i: int| 0 <= i < N ==> final(self)@[i] == 0,
    {
        wipe(&mut self.0);
    }
}

impl<const N: usize> Drop for SecretBytes<N> {
    fn drop(&mut self)
        opens_invariants none
        no_unwind
    {
        wipe(&mut self.0);
    }
}

/// An encapsulation key of `EK_LEN` bytes: a byte string that passed the
/// modulus check and whose seed expands to a matrix.
pub struct EncapsKey<const EK_LEN: usize>(pub(crate) [u8; EK_LEN]);

impl<const EK_LEN: usize> View for EncapsKey<EK_LEN> {
    type V = Seq<u8>;

    closed spec fn view(&self) -> Seq<u8> {
        self.0@
    }
}

impl<const EK_LEN: usize> Clone for EncapsKey<EK_LEN> {
    fn clone(&self) -> (r: Self)
        ensures
            r@ == self@,
    {
        proof {
            use_type_invariant(self);
        }
        EncapsKey(self.0)
    }
}

impl<const EK_LEN: usize> EncapsKey<EK_LEN> {
    #[verifier::type_invariant]
    closed spec fn inv(self) -> bool {
        valid_ek(ek_k(EK_LEN as int), self.0@)
    }

    /// The key that holds `bytes`, which are known to be valid.
    pub(crate) fn new(bytes: [u8; EK_LEN]) -> (r: Self)
        requires
            valid_ek(ek_k(EK_LEN as int), bytes@),
        ensures
            r@ == bytes@,
    {
        EncapsKey(bytes)
    }

    /// The bytes of the key, which are valid.
    pub fn as_bytes(&self) -> (r: &[u8; EK_LEN])
        ensures
            r@ == self@,
            valid_ek(ek_k(EK_LEN as int), self@),
    {
        proof {
            use_type_invariant(self);
        }
        &self.0
    }
}

/// A decapsulation key of `DK_LEN` bytes: a byte string that holds a valid
/// encapsulation key and the digest of that key. Its bytes are set to zero
/// when it is dropped.
pub struct DecapsKey<const DK_LEN: usize>(pub(crate) SecretBytes<DK_LEN>);

impl<const DK_LEN: usize> View for DecapsKey<DK_LEN> {
    type V = Seq<u8>;

    closed spec fn view(&self) -> Seq<u8> {
        self.0.0@
    }
}

impl<const DK_LEN: usize> Clone for DecapsKey<DK_LEN> {
    fn clone(&self) -> (r: Self)
        ensures
            r@ == self@,
    {
        proof {
            use_type_invariant(self);
        }
        DecapsKey(SecretBytes(self.0.0))
    }
}

impl<const DK_LEN: usize> DecapsKey<DK_LEN> {
    #[verifier::type_invariant]
    closed spec fn inv(self) -> bool {
        valid_dk(dk_k(DK_LEN as int), self.0.0@)
    }

    /// The key that holds `bytes`, which are known to be valid.
    pub(crate) fn new(bytes: [u8; DK_LEN]) -> (r: Self)
        requires
            valid_dk(dk_k(DK_LEN as int), bytes@),
        ensures
            r@ == bytes@,
    {
        DecapsKey(SecretBytes(bytes))
    }

    /// The bytes of the key, which are valid.
    pub fn as_bytes(&self) -> (r: &[u8; DK_LEN])
        ensures
            r@ == self@,
            valid_dk(dk_k(DK_LEN as int), self@),
    {
        proof {
            use_type_invariant(self);
        }
        &self.0.0
    }
}

/// A ciphertext of `CT_LEN` bytes. Every byte string of that length is one.
pub struct CipherText<const CT_LEN: usize>(pub(crate) [u8; CT_LEN]);

impl<const CT_LEN: usize> Clone for CipherText<CT_LEN> {
    fn clone(&self) -> (r: Self)
        ensures
            r@ == self@,
    {
        CipherText(self.0)
    }
}

impl<const CT_LEN: usize> View for CipherText<CT_LEN> {
    type V = Seq<u8>;

    closed spec fn view(&self) -> Seq<u8> {
        self.0@
    }
}

impl<const CT_LEN: usize> CipherText<CT_LEN> {
    /// The ciphertext that holds `bytes`.
    pub(crate) fn new(bytes: [u8; CT_LEN]) -> (r: Self)
        ensures
            r@ == bytes@,
    {
        CipherText(bytes)
    }

    /// The bytes of the ciphertext.
    pub fn as_bytes(&self) -> (r: &[u8; CT_LEN])
        ensures
            r@ == self@,
    {
        &self.0
    }
}

} // verus!
