//! The interfaces of the scheme: key generation, encapsulation,
//! decapsulation, the conversion of keys and ciphertexts to and from bytes,
//! and the source of random bytes that the caller supplies.
use crate::Error;
use vstd::prelude::*;

verus! {

/// A failure of a random source.
#[derive(Clone, Copy, Debug, PartialEq, Eq, Structural)]
pub struct RngError;

/// A source of random bytes.
///
/// Key generation draws two strings of 32 bytes from it, encapsulation one.
pub trait RandomSource {
    /// Fills `out` with random bytes, or reports a failure.
    fn fill_bytes(&mut self, out: &mut [u8]) -> (r: Result<(), RngError>)
        ensures
            final(out)@.len() == old(out)@.len(),
    ;
}

/// A source that gives the same 32 bytes at each draw, for operations that
/// are to be repeated from a seed.
pub struct DummyRng {
    /// The bytes that each draw gives.
    pub data: [u8; 32],
}

impl RandomSource for DummyRng {
    /// Copies the 32 bytes into `out`; fails where `out` is not 32 bytes
    /// long.
    fn fill_bytes(&mut self, out: &mut [u8]) -> (r: Result<(), RngError>)
        ensures
            final(self).data == old(self).data,
            r is Ok <==> old(out)@.len() == 32,
            r is Ok ==> final(out)@ == old(self).data@,
            r is Err ==> final(out)@ == old(out)@,
    {
        if out.len() != 32 {
            return Err(RngError);
        }
        let mut i: usize = 0;
        while i < 32
            invariant
                i <= 32,
                out@.len() == 32,
                self.data == old(self).data,
                forall|t: int| 0 <= t < i ==> out@[t] == self.data@[t],
            decreases 32 - i,
        {
            out[i] = self.data[i];
            i = i + 1;
        }
        proof {
            assert(out@ =~= self.data@);
        }
        Ok(())
    }
}

/// A source that gives back byte strings that were handed to it, the last
/// one first.
pub struct TestRng {
    data: Vec<Vec<u8>>,
}

impl TestRng {
    /// The byte strings that are still to be given, the next one last.
    pub closed spec fn pending(&self) -> Seq<Seq<u8>> {
        Seq::new(self.data@.len(), |i: int| self.data@[i]@)
    }

    /// A source that holds nothing.
    pub fn new() -> (r: Self)
        ensures
            r.pending() == Seq::<Seq<u8>>::empty(),
    {
        let r = TestRng { data: Vec::new() };
        proof {
            assert(r.pending() =~= Seq::<Seq<u8>>::empty());
        }
        r
    }

    /// Hands `new_data` to the source: it is the next string to be given.
    pub fn push(&mut self, new_data: &[u8])
        ensures
            final(self).pending() == old(self).pending().push(new_data@),
    {
        let x = vstd::slice::slice_to_vec(new_data);
        self.data.push(x);
        proof {
            assert(self.pending() =~= old(self).pending().push(new_data@));
        }
    }
}

impl RandomSource for TestRng {
    /// Gives the string that was handed in last and forgets it. Fails where
    /// nothing is held, or where what is held next is not as long as `out`:
    /// that string is forgotten too.
    fn fill_bytes(&mut self, out: &mut [u8]) -> (r: Result<(), RngError>)
        ensures
            old(self).pending().len() == 0 ==> r is Err && final(self).pending() == old(
                self,
            ).pending(),
            old(self).pending().len() > 0 ==> final(self).pending() == old(
                self,
            ).pending().drop_last(),
            r is Ok <==> old(self).pending().len() > 0 && old(self).pending().last().len() == old(
                out,
            )@.len(),
            r is Ok ==> final(out)@ == old(self).pending().last(),
            r is Err ==> final(out)@ == old(out)@,
    {
        let x = match self.data.pop() {
            Some(x) => x,
            None => {
                proof {
                    assert(self.pending() =~= old(self).pending());
                }
                return Err(RngError);
            },
        };
        proof {
            assert(self.pending() =~= old(self).pending().drop_last());
            assert(x@ == old(self).pending().last());
        }
        if x.len() != out.len() {
            return Err(RngError);
        }
        let n: usize = x.len();
        let mut i: usize = 0;
        while i < n
            invariant
                i <= n,
                n == x@.len(),
                n == out@.len(),
                forall|t: int| 0 <= t < i ==> out@[t] == x@[t],
            decreases n - i,
        {
            out[i] = x[i];
            i = i + 1;
        }
        proof {
            assert(out@ =~= x@);
        }
        Ok(())
    }
}

/// Generation and validation of key pairs of one parameter set.
pub trait KeyGen {
    /// The encapsulation key, sent to the other party.
    type EncapsKey;

    /// The decapsulation key, kept secret.
    type DecapsKey;

    /// The bytes of an encapsulation key.
    type EncapsByteArray;

    /// The bytes of a decapsulation key.
    type DecapsByteArray;

    /// Generates a key pair from two strings of 32 bytes drawn from `rng`.
    fn try_keygen_with_rng(rng: &mut impl RandomSource) -> Result<
        (Self::EncapsKey, Self::DecapsKey),
        Error,
    >;

    /// Generates the key pair of the seeds `d` and `z`.
    fn keygen_from_seed(d: [u8; 32], z: [u8; 32]) -> Result<
        (Self::EncapsKey, Self::DecapsKey),
        Error,
    >;

    /// Whether the two byte strings are the two keys of one pair, as far as
    /// one encapsulation with bytes drawn from `rng` and its decapsulation
    /// show. Its running time depends on the keys.
    fn validate_keypair_with_rng_vartime(
        rng: &mut impl RandomSource,
        ek: &Self::EncapsByteArray,
        dk: &Self::DecapsByteArray,
    ) -> bool;
}

/// Encapsulation with an encapsulation key.
pub trait Encaps {
    /// The shared secret that both parties end with.
    type SharedSecretKey;

    /// The ciphertext, sent back to the owner of the decapsulation key.
    type CipherText;

    /// Makes a shared secret and its ciphertext from 32 bytes drawn from
    /// `rng`.
    fn try_encaps_with_rng(&self, rng: &mut impl RandomSource) -> Result<
        (Self::SharedSecretKey, Self::CipherText),
        Error,
    >;

    /// Makes the shared secret and the ciphertext of the 32 bytes `seed`.
    fn encaps_from_seed(&self, seed: &[u8; 32]) -> (Self::SharedSecretKey, Self::CipherText);
}

/// Decapsulation with a decapsulation key.
pub trait Decaps {
    /// The ciphertext received.
    type CipherText;

    /// The shared secret that both parties end with.
    type SharedSecretKey;

    /// Recovers the shared secret of `ct`, or the secret that stands for a
    /// ciphertext that was not made for this key.
    fn try_decaps(&self, ct: &Self::CipherText) -> Result<Self::SharedSecretKey, Error>;
}

/// Conversion to and from bytes.
pub trait SerDes {
    /// The array of bytes of the right length.
    type ByteArray;

    /// The bytes of the value.
    fn into_bytes(self) -> Self::ByteArray;

    /// The value that the bytes hold, where they hold one.
    fn try_from_bytes(ba: Self::ByteArray) -> Result<Self, Error> where Self: Sized;
}

} // verus!
