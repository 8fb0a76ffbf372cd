//! Comparison and selection that do not branch on secret bytes, and the
//! wiping of secret bytes.
use subtle::{Choice, ConditionallySelectable, ConstantTimeEq};
use vstd::prelude::*;
use zeroize::Zeroize;

verus! {

/// `ConstantTimeEq::ct_eq` of the subtle crate on two byte strings, read as
/// a `bool`: true where the two have the same length and the same bytes.
#[verifier::external_body]
pub(crate) fn ct_eq(a: &[u8], b: &[u8]) -> (r: bool)
    ensures
        r == (a@ == b@),
{
    bool::from(a.ct_eq(b))
}

/// `ConstantTimeEq::ct_ne` of the subtle crate on two byte strings, read as
/// the byte inside its `Choice`: 0 where the two have the same length and
/// the same bytes, 1 where they differ.
#[verifier::external_body]
pub(crate) fn ct_ne(a: &[u8], b: &[u8]) -> (r: u8)
    ensures
        r == (if a@ == b@ {
            0u8
        } else {
            1u8
        }),
{
    a.ct_ne(b).unwrap_u8()
}

/// `ConditionallySelectable::conditional_assign` of the subtle crate on two
/// arrays of 32 bytes, with the `Choice` made of `choice`: `dst` takes the
/// bytes of `src` where `choice` is 1 and keeps its own where it is 0.
#[verifier::external_body]
pub(crate) fn conditional_assign(dst: &mut [u8; 32], src: &[u8; 32], choice: u8)
    requires
        choice <= 1,
    ensures
        final(dst)@ == (if choice == 1 {
            src@
        } else {
            old(dst)@
        }),
{
    dst.conditional_assign(src, Choice::from(choice));
}

/// `Zeroize::zeroize` of the zeroize crate on a byte string: every byte
/// becomes 0.
#[verifier::external_body]
pub(crate) fn wipe(buf: &mut [u8])
    ensures
        final(buf)@.len() == old(buf)@.len(),
        forall|i: int| 0 <= i < final(buf)@.len() ==> final(buf)@[i] == 0,
    opens_invariants none
    no_unwind
{
    buf.zeroize();
}

} // verus!
