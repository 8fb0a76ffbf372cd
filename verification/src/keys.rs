//! The operations on typed keys and ciphertexts that the parameter sets
//! share: what makes a byte string a key, and why generated keys are keys.
use crate::Error;
use crate::SharedSecretKey;
use crate::byte_fns::{byte_encode_spec, lemma_decode_of_encode};
use crate::constant_time::wipe;
use crate::helpers::{h, h_spec, mat_vec, vec_add};
use crate::k_pke::{
    a_hat_spec, below_q, canonical, cbd_vec, chunk, decode_vec, decode_vec_12, encode_vec, expands,
    gen_a_hat, key_gen_rho, lemma_encode_vec_len, ntt_vec_spec,
};
use crate::ml_kem::{
    dk_ek, dk_hash, ml_kem_decaps_internal, ml_kem_decaps_spec, ml_kem_encaps,
    ml_kem_encaps_internal, ml_kem_encaps_spec, ml_kem_key_gen, ml_kem_key_gen_internal,
    ml_kem_key_gen_spec, valid_dk, valid_ek,
};
use crate::ntt::{is_poly, lemma_ntt_is_poly};
use crate::radix::digits_in_range;
use crate::traits::RandomSource;
use crate::types::{CipherText, DecapsKey, EncapsKey};
use vstd::arithmetic::power2::*;
use vstd::prelude::*;

verus! {

/// Piece `i` of the encoding of a vector is the encoding of its entry `i`.
pub proof fn lemma_encode_vec_chunk(d: nat, v: Seq<Seq<int>>, i: int)
    requires
        0 <= i < v.len(),
    ensures
        chunk(encode_vec(d, v), (32 * d) as int, i) == byte_encode_spec(d, v[i]),
    decreases v.len(),
{
    let size = (32 * d) as int;
    let head = v.drop_last();
    let n = v.len() - 1;
    lemma_encode_vec_len(d, head);
    assert(32 * d * head.len() == size * n) by (nonlinear_arith)
        requires
            size == 32 * d,
            head.len() == n,
    ;
    assert(size * i + size <= size * n || i == n) by (nonlinear_arith)
        requires
            0 <= i <= n,
            size >= 0,
    ;
    if i < n {
        lemma_encode_vec_chunk(d, head, i);
        assert(chunk(encode_vec(d, v), size, i) =~= chunk(encode_vec(d, head), size, i));
    } else {
        assert(chunk(encode_vec(d, v), size, i) =~= byte_encode_spec(d, v.last()));
    }
}

/// The encoding of polynomials with coefficients in `[0, Q)`, 12 bits a
/// coefficient, is canonical.
pub proof fn lemma_encoding_canonical(k: nat, v: Seq<Seq<int>>)
    requires
        v.len() == k,
        forall|i: int| 0 <= i < k ==> is_poly(#[trigger] v[i]),
    ensures
        encode_vec(12, v).len() == 384 * k,
        canonical(k, encode_vec(12, v)),
        decode_vec(12, k, encode_vec(12, v)) == v,
{
    let enc = encode_vec(12, v);
    lemma_encode_vec_len(12, v);
    lemma2_to64();
    assert forall|i: int| 0 <= i < k implies #[trigger] decode_vec(12, k, enc)[i] == v[i] by {
        lemma_encode_vec_chunk(12, v, i);
        assert(is_poly(v[i]));
        assert(digits_in_range(v[i], 12));
        lemma_decode_of_encode(12, v[i]);
    }
    assert(decode_vec(12, k, enc) =~= v);
    assert forall|i: int| 0 <= i < k implies below_q(#[trigger] decode_vec(12, k, enc)[i]) by {
        assert(is_poly(v[i]));
    }
}

/// A decapsulation key put together from two canonical encodings, a seed
/// whose matrix can be sampled and the digest of the encapsulation key is a
/// valid key that holds a valid encapsulation key.
pub proof fn lemma_assembled_valid(
    k: nat,
    enc_t: Seq<u8>,
    enc_s: Seq<u8>,
    rho: Seq<u8>,
    z: Seq<u8>,
)
    requires
        2 <= k <= 4,
        enc_t.len() == 384 * k,
        enc_s.len() == 384 * k,
        canonical(k, enc_t),
        canonical(k, enc_s),
        rho.len() == 32,
        z.len() == 32,
        h_spec(enc_t + rho).len() == 32,
        expands(rho, k),
    ensures
        ({
            let ek = enc_t + rho;
            let dk = enc_s + ek + h_spec(ek) + z;
            &&& valid_ek(k, ek)
            &&& valid_dk(k, dk)
            &&& dk_ek(k, dk) == ek
            &&& canonical(k, dk.subrange(0, (384 * k) as int))
        }),
{
    let ek = enc_t + rho;
    let dk = enc_s + ek + h_spec(ek) + z;
    assert(ek.subrange(0, (384 * k) as int) =~= enc_t);
    assert(ek.subrange((384 * k) as int, (384 * k + 32) as int) =~= rho);
    assert(dk.subrange(0, (384 * k) as int) =~= enc_s);
    assert(dk_ek(k, dk) =~= ek);
    assert(dk_hash(k, dk) =~= h_spec(ek));
}

/// Every entry of a sum of two vectors has coefficients in `[0, Q)`.
pub proof fn lemma_vec_add_is_poly(a: Seq<Seq<int>>, b: Seq<Seq<int>>, i: int)
    requires
        0 <= i < a.len(),
    ensures
        is_poly(vec_add(a, b)[i]),
{
}

/// A generated key pair is a pair of valid keys, and the secret vector of
/// its decapsulation key is canonical.
pub proof fn lemma_key_gen_valid(k: nat, eta1: nat, d: Seq<u8>, z: Seq<u8>)
    requires
        2 <= k <= 4,
        z.len() == 32,
        expands(key_gen_rho(k, d), k),
        ml_kem_key_gen_spec(k, eta1, d, z).0.len() == 384 * k + 32,
        ml_kem_key_gen_spec(k, eta1, d, z).1.len() == 768 * k + 96,
    ensures
        valid_ek(k, ml_kem_key_gen_spec(k, eta1, d, z).0),
        valid_dk(k, ml_kem_key_gen_spec(k, eta1, d, z).1),
        dk_ek(k, ml_kem_key_gen_spec(k, eta1, d, z).1) == ml_kem_key_gen_spec(k, eta1, d, z).0,
        canonical(k, ml_kem_key_gen_spec(k, eta1, d, z).1.subrange(0, (384 * k) as int)),
{
    let (rho, sigma) = crate::helpers::g_spec(d + seq![k as u8]);
    let a_hat = a_hat_spec(rho, k);
    let s_hat = ntt_vec_spec(cbd_vec(k, eta1, sigma, 0));
    let e_hat = ntt_vec_spec(cbd_vec(k, eta1, sigma, k));
    let t_hat = vec_add(mat_vec(a_hat, s_hat), e_hat);
    let ek = encode_vec(12, t_hat) + rho;
    let dk = encode_vec(12, s_hat) + ek + h_spec(ek) + z;
    assert(ml_kem_key_gen_spec(k, eta1, d, z).0 == ek);
    assert(ml_kem_key_gen_spec(k, eta1, d, z).1 == dk);
    assert(t_hat.len() == k);
    assert(s_hat.len() == k);
    assert forall|i: int| 0 <= i < k implies is_poly(#[trigger] t_hat[i]) by {
        lemma_vec_add_is_poly(mat_vec(a_hat, s_hat), e_hat, i);
    }
    assert forall|i: int| 0 <= i < k implies is_poly(#[trigger] s_hat[i]) by {
        lemma_ntt_is_poly(cbd_vec(k, eta1, sigma, 0)[i]);
    }
    lemma_encode_vec_len(12, t_hat);
    lemma_encode_vec_len(12, s_hat);
    assert(32 * 12 * t_hat.len() == 384 * k);
    assert(32 * 12 * s_hat.len() == 384 * k);
    assert(rho.len() == 32);
    assert(h_spec(ek).len() == 32);
    lemma_encoding_canonical(k, t_hat);
    lemma_encoding_canonical(k, s_hat);
    lemma_assembled_valid(k, encode_vec(12, t_hat), encode_vec(12, s_hat), rho, z);
}

/// Whether two byte strings are the same. Its running time depends on the
/// bytes.
pub fn bytes_equal(a: &[u8], b: &[u8]) -> (r: bool)
    ensures
        r == (a@ == b@),
{
    if a.len() != b.len() {
        return false;
    }
    let n: usize = a.len();
    let mut i: usize = 0;
    while i < n
        invariant
            i <= n,
            n == a@.len(),
            n == b@.len(),
            forall|t: int| 0 <= t < i ==> a@[t] == b@[t],
        decreases n - i,
    {
        if a[i] != b[i] {
            return false;
        }
        i = i + 1;
    }
    proof {
        assert(a@ =~= b@);
    }
    true
}

/// What reading `b` as an encapsulation key of `k` polynomials gives: the
/// bytes themselves, or `InvalidEncoding` where a coefficient is not below
/// `Q`, or else `SamplingExhausted` where the matrix of the seed cannot be
/// sampled.
pub open spec fn encaps_key_of_bytes(k: nat, b: Seq<u8>) -> Result<Seq<u8>, Error> {
    if !canonical(k, b.subrange(0, (384 * k) as int)) {
        Err(Error::InvalidEncoding)
    } else if !expands(b.subrange((384 * k) as int, (384 * k + 32) as int), k) {
        Err(Error::SamplingExhausted)
    } else {
        Ok(b)
    }
}

/// What reading `b` as a decapsulation key of `k` polynomials gives: the
/// bytes themselves, or the error of reading the encapsulation key in them,
/// or else `InvalidEncoding` where the digest in them is not the digest of
/// that key.
pub open spec fn decaps_key_of_bytes(k: nat, b: Seq<u8>) -> Result<Seq<u8>, Error> {
    match encaps_key_of_bytes(k, dk_ek(k, b)) {
        Err(e) => Err(e),
        Ok(_) => if dk_hash(k, b) == h_spec(dk_ek(k, b)) {
            Ok(b)
        } else {
            Err(Error::InvalidEncoding)
        },
    }
}

/// The outcome of a check of the bytes `b`, as the outcome of reading them.
pub open spec fn read_as(r: Result<(), Error>, b: Seq<u8>) -> Result<Seq<u8>, Error> {
    match r {
        Ok(()) => Ok(b),
        Err(e) => Err(e),
    }
}

/// Reading the bytes of an encapsulation key gives the key back: every valid
/// byte string is read as itself. And what is read is valid.
pub proof fn lemma_encaps_key_of_its_bytes(k: nat, b: Seq<u8>)
    requires
        b.len() == 384 * k + 32,
    ensures
        valid_ek(k, b) <==> encaps_key_of_bytes(k, b) == Ok::<Seq<u8>, Error>(b),
        !canonical(k, b.subrange(0, (384 * k) as int)) ==> encaps_key_of_bytes(k, b) == Err::<
            Seq<u8>,
            Error,
        >(Error::InvalidEncoding),
{
}

/// Reading the bytes of a decapsulation key gives the key back: every valid
/// byte string is read as itself. And what is read is valid.
pub proof fn lemma_decaps_key_of_its_bytes(k: nat, b: Seq<u8>)
    requires
        b.len() == 768 * k + 96,
    ensures
        valid_dk(k, b) <==> decaps_key_of_bytes(k, b) == Ok::<Seq<u8>, Error>(b),
{
    assert(dk_ek(k, b).len() == 384 * k + 32);
}

/// Checks that `ek` is an encapsulation key of `K` polynomials: that every
/// coefficient is below `Q`, and that the matrix of its seed can be sampled.
pub fn check_encaps_key<const K: usize>(ek: &[u8]) -> (r: Result<(), Error>)
    requires
        2 <= K <= 4,
        ek@.len() == 384 * K + 32,
    ensures
        read_as(r, ek@) == encaps_key_of_bytes(K as nat, ek@),
        r is Ok <==> valid_ek(K as nat, ek@),
{
    match decode_vec_12::<K>(&ek[0..384 * K]) {
        Ok(_) => {},
        Err(e) => {
            return Err(e);
        },
    }
    let mut rho: [u8; 32] = [0u8; 32];
    let mut i: usize = 0;
    while i < 32
        invariant
            i <= 32,
            2 <= K <= 4,
            ek@.len() == 384 * K + 32,
            forall|t: int| 0 <= t < i ==> rho@[t] == ek@[384 * K + t],
        decreases 32 - i,
    {
        rho[i] = ek[384 * K + i];
        i = i + 1;
    }
    proof {
        assert(rho@ =~= ek@.subrange(384 * K, 384 * K + 32));
    }
    match gen_a_hat::<K>(&rho) {
        Ok(_) => Ok(()),
        Err(e) => Err(e),
    }
}

/// Checks that `dk` is a decapsulation key of `K` polynomials: that the
/// encapsulation key in it is valid, and that the digest in it is the digest
/// of that key.
pub fn check_decaps_key<const K: usize>(dk: &[u8]) -> (r: Result<(), Error>)
    requires
        2 <= K <= 4,
        dk@.len() == 768 * K + 96,
    ensures
        read_as(r, dk@) == decaps_key_of_bytes(K as nat, dk@),
        r is Ok <==> valid_dk(K as nat, dk@),
{
    let ek = &dk[384 * K..768 * K + 32];
    match check_encaps_key::<K>(ek) {
        Ok(()) => {},
        Err(e) => {
            return Err(e);
        },
    }
    let digest = h(ek);
    if bytes_equal(digest.as_slice(), &dk[768 * K + 32..768 * K + 64]) {
        Ok(())
    } else {
        Err(Error::InvalidEncoding)
    }
}

/// The key pair of the seeds `d` and `z`.
pub fn keygen_from_seed<
    const K: usize,
    const ETA1_64: usize,
    const EK_LEN: usize,
    const DK_LEN: usize,
>(d: [u8; 32], z: [u8; 32]) -> (r: Result<(EncapsKey<EK_LEN>, DecapsKey<DK_LEN>), Error>)
    requires
        2 <= K <= 4,
        ETA1_64 == 128 || ETA1_64 == 192,
        EK_LEN == 384 * K + 32,
        DK_LEN == 768 * K + 96,
    ensures
        match r {
            Ok((ek, dk)) => {
                &&& expands(key_gen_rho(K as nat, d@), K as nat)
                &&& ek@ == ml_kem_key_gen_spec(K as nat, (ETA1_64 / 64) as nat, d@, z@).0
                &&& dk@ == ml_kem_key_gen_spec(K as nat, (ETA1_64 / 64) as nat, d@, z@).1
                &&& dk_ek(K as nat, dk@) == ek@
                &&& canonical(K as nat, dk@.subrange(0, 384 * K))
            },
            Err(e) => e == Error::SamplingExhausted && !expands(
                key_gen_rho(K as nat, d@),
                K as nat,
            ),
        },
{
    let mut ek: [u8; EK_LEN] = [0u8; EK_LEN];
    let mut dk: [u8; DK_LEN] = [0u8; DK_LEN];
    match ml_kem_key_gen_internal::<K, ETA1_64>(d, z, &mut ek, &mut dk) {
        Ok(()) => {},
        Err(e) => {
            return Err(e);
        },
    }
    proof {
        lemma_key_gen_valid(K as nat, (ETA1_64 / 64) as nat, d@, z@);
    }
    let pair = (EncapsKey::new(ek), DecapsKey::new(dk));
    wipe(&mut dk);
    Ok(pair)
}

/// The key pair of two seeds drawn from `rng`.
pub fn keygen_with_rng<
    const K: usize,
    const ETA1_64: usize,
    const EK_LEN: usize,
    const DK_LEN: usize,
>(rng: &mut impl RandomSource) -> (r: Result<(EncapsKey<EK_LEN>, DecapsKey<DK_LEN>), Error>)
    requires
        2 <= K <= 4,
        ETA1_64 == 128 || ETA1_64 == 192,
        EK_LEN == 384 * K + 32,
        DK_LEN == 768 * K + 96,
    ensures
        match r {
            Ok((ek, dk)) => {
                &&& dk_ek(K as nat, dk@) == ek@
                &&& canonical(K as nat, dk@.subrange(0, 384 * K))
                &&& exists|d: Seq<u8>, z: Seq<u8>|
                    {
                        &&& d.len() == 32
                        &&& z.len() == 32
                        &&& expands(key_gen_rho(K as nat, d), K as nat)
                        &&& (ek@, dk@) == #[trigger] ml_kem_key_gen_spec(
                            K as nat,
                            (ETA1_64 / 64) as nat,
                            d,
                            z,
                        )
                    }
            },
            Err(e) => e == Error::RngFailure || e == Error::SamplingExhausted,
        },
{
    let mut ek: [u8; EK_LEN] = [0u8; EK_LEN];
    let mut dk: [u8; DK_LEN] = [0u8; DK_LEN];
    match ml_kem_key_gen::<K, ETA1_64>(rng, &mut ek, &mut dk) {
        Ok(()) => {},
        Err(e) => {
            return Err(e);
        },
    }
    proof {
        let (d, z) = choose|d: Seq<u8>, z: Seq<u8>|
            {
                &&& d.len() == 32
                &&& z.len() == 32
                &&& expands(key_gen_rho(K as nat, d), K as nat)
                &&& (ek@, dk@) == #[trigger] ml_kem_key_gen_spec(
                    K as nat,
                    (ETA1_64 / 64) as nat,
                    d,
                    z,
                )
            };
        lemma_key_gen_valid(K as nat, (ETA1_64 / 64) as nat, d, z);
    }
    let pair = (EncapsKey::new(ek), DecapsKey::new(dk));
    wipe(&mut dk);
    Ok(pair)
}

/// The shared secret and the ciphertext of the message `seed` under `ek`.
pub fn encaps_from_seed<
    const K: usize,
    const ETA1_64: usize,
    const ETA2_64: usize,
    const EK_LEN: usize,
    const CT_LEN: usize,
>(du: u32, dv: u32, ek: &EncapsKey<EK_LEN>, seed: &[u8; 32]) -> (r: (
    SharedSecretKey,
    CipherText<CT_LEN>,
))
    requires
        2 <= K <= 4,
        ETA1_64 == 128 || ETA1_64 == 192,
        ETA2_64 == 128 || ETA2_64 == 192,
        1 <= du <= 11,
        1 <= dv <= 11,
        EK_LEN == 384 * K + 32,
        CT_LEN == 32 * du * K + 32 * dv,
    ensures
        (r.0@, r.1@) == ml_kem_encaps_spec(
            K as nat,
            (ETA1_64 / 64) as nat,
            (ETA2_64 / 64) as nat,
            du as nat,
            dv as nat,
            ek@,
            seed@,
        ),
{
    let mut ct: [u8; CT_LEN] = [0u8; CT_LEN];
    match ml_kem_encaps_internal::<K, ETA1_64, ETA2_64>(
        du,
        dv,
        seed,
        ek.as_bytes().as_slice(),
        &mut ct,
    ) {
        Ok(ssk) => (ssk, CipherText::new(ct)),
        Err(_) => vstd::pervasive::unreached(),
    }
}

/// The shared secret and the ciphertext of a message drawn from `rng` under
/// `ek`.
pub fn encaps_with_rng<
    const K: usize,
    const ETA1_64: usize,
    const ETA2_64: usize,
    const EK_LEN: usize,
    const CT_LEN: usize,
>(du: u32, dv: u32, ek: &EncapsKey<EK_LEN>, rng: &mut impl RandomSource) -> (r: Result<
    (SharedSecretKey, CipherText<CT_LEN>),
    Error,
>)
    requires
        2 <= K <= 4,
        ETA1_64 == 128 || ETA1_64 == 192,
        ETA2_64 == 128 || ETA2_64 == 192,
        1 <= du <= 11,
        1 <= dv <= 11,
        EK_LEN == 384 * K + 32,
        CT_LEN == 32 * du * K + 32 * dv,
    ensures
        match r {
            Ok((ssk, ct)) => exists|m: Seq<u8>|
                {
                    &&& m.len() == 32
                    &&& (ssk@, ct@) == #[trigger] ml_kem_encaps_spec(
                        K as nat,
                        (ETA1_64 / 64) as nat,
                        (ETA2_64 / 64) as nat,
                        du as nat,
                        dv as nat,
                        ek@,
                        m,
                    )
                },
            Err(e) => e == Error::RngFailure,
        },
{
    let mut ct: [u8; CT_LEN] = [0u8; CT_LEN];
    match ml_kem_encaps::<K, ETA1_64, ETA2_64>(rng, du, dv, ek.as_bytes().as_slice(), &mut ct) {
        Ok(ssk) => Ok((ssk, CipherText::new(ct))),
        Err(e) => Err(e),
    }
}

/// The shared secret of the ciphertext `ct` under `dk`. It fails only where
/// the secret vector of `dk` is not canonical, which no generated key is.
pub fn decaps<
    const K: usize,
    const ETA1_64: usize,
    const ETA2_64: usize,
    const J_LEN: usize,
    const CT_LEN: usize,
    const DK_LEN: usize,
>(du: u32, dv: u32, dk: &DecapsKey<DK_LEN>, ct: &CipherText<CT_LEN>) -> (r: Result<
    SharedSecretKey,
    Error,
>)
    requires
        2 <= K <= 4,
        ETA1_64 == 128 || ETA1_64 == 192,
        ETA2_64 == 128 || ETA2_64 == 192,
        1 <= du <= 11,
        1 <= dv <= 11,
        DK_LEN == 768 * K + 96,
        CT_LEN == 32 * du * K + 32 * dv,
        J_LEN == 32 + CT_LEN,
    ensures
        match r {
            Ok(ssk) => {
                &&& canonical(K as nat, dk@.subrange(0, 384 * K))
                &&& ssk@ == ml_kem_decaps_spec(
                    K as nat,
                    (ETA1_64 / 64) as nat,
                    (ETA2_64 / 64) as nat,
                    du as nat,
                    dv as nat,
                    dk@,
                    ct@,
                )
            },
            Err(e) => e == Error::InvalidEncoding && !canonical(
                K as nat,
                dk@.subrange(0, 384 * K),
            ),
        },
{
    ml_kem_decaps_internal::<K, ETA1_64, ETA2_64, J_LEN, CT_LEN>(
        du,
        dv,
        dk.as_bytes().as_slice(),
        ct.as_bytes(),
    )
}

/// Whether `ek` and `dk` are the two keys of one pair, as far as one
/// encapsulation with a message drawn from `rng` and its decapsulation show.
///
/// Nothing is drawn where the keys do not fit together. Else one message is
/// drawn, and the answer is that of `validate_keypair_with_seed` for it, or
/// `false` where the draw fails.
pub fn validate_keypair<
    const K: usize,
    const ETA1_64: usize,
    const ETA2_64: usize,
    const J_LEN: usize,
    const EK_LEN: usize,
    const DK_LEN: usize,
    const CT_LEN: usize,
>(du: u32, dv: u32, rng: &mut impl RandomSource, ek: &[u8; EK_LEN], dk: &[u8; DK_LEN]) -> (r: bool)
    requires
        2 <= K <= 4,
        ETA1_64 == 128 || ETA1_64 == 192,
        ETA2_64 == 128 || ETA2_64 == 192,
        1 <= du <= 11,
        1 <= dv <= 11,
        EK_LEN == 384 * K + 32,
        DK_LEN == 768 * K + 96,
        CT_LEN == 32 * du * K + 32 * dv,
        J_LEN == 32 + CT_LEN,
    ensures
        !keypair_fits(K as nat, ek@, dk@) ==> !r,
        r ==> exists|m: Seq<u8>|
            {
                &&& m.len() == 32
                &&& #[trigger] keypair_validates(
                    K as nat,
                    (ETA1_64 / 64) as nat,
                    (ETA2_64 / 64) as nat,
                    du as nat,
                    dv as nat,
                    ek@,
                    dk@,
                    m,
                )
            },
{
    let (ek_key, dk_key) = match check_keypair::<K, EK_LEN, DK_LEN>(ek, dk) {
        Some(pair) => pair,
        None => {
            return false;
        },
    };
    let mut m: [u8; 32] = [0u8; 32];
    let r = match rng.fill_bytes(&mut m) {
        Ok(()) => trial_agrees::<K, ETA1_64, ETA2_64, J_LEN, EK_LEN, DK_LEN, CT_LEN>(
            du,
            dv,
            &ek_key,
            &dk_key,
            &m,
        ),
        Err(_) => false,
    };
    proof {
        if r {
            assert(keypair_validates(
                K as nat,
                (ETA1_64 / 64) as nat,
                (ETA2_64 / 64) as nat,
                du as nat,
                dv as nat,
                ek@,
                dk@,
                m@,
            ));
        }
    }
    wipe(&mut m);
    r
}

/// Whether the byte strings `ek` and `dk` fit together as the two keys of one
/// pair of `k` polynomials: `dk` holds `ek` and the digest of `ek`, and both
/// are valid keys.
pub open spec fn keypair_fits(k: nat, ek: Seq<u8>, dk: Seq<u8>) -> bool {
    &&& dk_ek(k, dk) == ek
    &&& dk_hash(k, dk) == h_spec(ek)
    &&& valid_ek(k, ek)
    &&& valid_dk(k, dk)
}

/// Whether the encapsulation with the message `m` under `ek` and the
/// decapsulation of its ciphertext under `dk` give the same shared secret:
/// the secret vector of `dk` is canonical, and the two secrets are the same.
pub open spec fn trial_agrees_spec(
    k: nat,
    eta1: nat,
    eta2: nat,
    du: nat,
    dv: nat,
    ek: Seq<u8>,
    dk: Seq<u8>,
    m: Seq<u8>,
) -> bool {
    &&& canonical(k, dk.subrange(0, (384 * k) as int))
    &&& ml_kem_decaps_spec(
        k,
        eta1,
        eta2,
        du,
        dv,
        dk,
        ml_kem_encaps_spec(k, eta1, eta2, du, dv, ek, m).1,
    ) == ml_kem_encaps_spec(k, eta1, eta2, du, dv, ek, m).0
}

/// Whether `ek` and `dk` are found to be the two keys of one pair by the
/// trial with the message `m`: they fit together, and the encapsulation with
/// `m` and its decapsulation agree.
pub open spec fn keypair_validates(
    k: nat,
    eta1: nat,
    eta2: nat,
    du: nat,
    dv: nat,
    ek: Seq<u8>,
    dk: Seq<u8>,
    m: Seq<u8>,
) -> bool {
    keypair_fits(k, ek, dk) && trial_agrees_spec(k, eta1, eta2, du, dv, ek, dk, m)
}

/// Reads `ek` and `dk` as the two keys of one pair: the keys where `dk`
/// holds `ek` and the digest of `ek` and both are valid, and nothing where
/// they do not fit together. Its running time depends on the keys.
pub fn check_keypair<const K: usize, const EK_LEN: usize, const DK_LEN: usize>(
    ek: &[u8; EK_LEN],
    dk: &[u8; DK_LEN],
) -> (r: Option<(EncapsKey<EK_LEN>, DecapsKey<DK_LEN>)>)
    requires
        2 <= K <= 4,
        EK_LEN == 384 * K + 32,
        DK_LEN == 768 * K + 96,
    ensures
        r is Some <==> keypair_fits(K as nat, ek@, dk@),
        r is Some ==> r->Some_0.0@ == ek@ && r->Some_0.1@ == dk@,
{
    // The decapsulation key holds the encapsulation key.
    if !bytes_equal(ek.as_slice(), &dk[384 * K..768 * K + 32]) {
        return None;
    }
    // The decapsulation key holds the digest of the encapsulation key.
    let digest = h(ek.as_slice());
    if !bytes_equal(digest.as_slice(), &dk[768 * K + 32..768 * K + 64]) {
        return None;
    }
    // Both are keys.
    if check_encaps_key::<K>(ek.as_slice()).is_err() {
        return None;
    }
    if check_decaps_key::<K>(dk.as_slice()).is_err() {
        return None;
    }
    Some((EncapsKey::new(*ek), DecapsKey::new(*dk)))
}

/// Whether the encapsulation with the message `seed` under `ek` and the
/// decapsulation of its ciphertext under `dk` give the same shared secret.
pub fn trial_agrees<
    const K: usize,
    const ETA1_64: usize,
    const ETA2_64: usize,
    const J_LEN: usize,
    const EK_LEN: usize,
    const DK_LEN: usize,
    const CT_LEN: usize,
>(du: u32, dv: u32, ek: &EncapsKey<EK_LEN>, dk: &DecapsKey<DK_LEN>, seed: &[u8; 32]) -> (r: bool)
    requires
        2 <= K <= 4,
        ETA1_64 == 128 || ETA1_64 == 192,
        ETA2_64 == 128 || ETA2_64 == 192,
        1 <= du <= 11,
        1 <= dv <= 11,
        EK_LEN == 384 * K + 32,
        DK_LEN == 768 * K + 96,
        CT_LEN == 32 * du * K + 32 * dv,
        J_LEN == 32 + CT_LEN,
    ensures
        r == trial_agrees_spec(
            K as nat,
            (ETA1_64 / 64) as nat,
            (ETA2_64 / 64) as nat,
            du as nat,
            dv as nat,
            ek@,
            dk@,
            seed@,
        ),
{
    let (ssk1, ct) = encaps_from_seed::<K, ETA1_64, ETA2_64, EK_LEN, CT_LEN>(du, dv, ek, seed);
    match decaps::<K, ETA1_64, ETA2_64, J_LEN, CT_LEN, DK_LEN>(du, dv, dk, &ct) {
        Ok(ssk2) => ssk1 == ssk2,
        Err(_) => false,
    }
}

/// Whether `ek` and `dk` are the two keys of one pair, as far as the
/// encapsulation with the message `seed` and its decapsulation show: they
/// fit together, and the two operations give the same shared secret. Its
/// running time depends on the keys.
pub fn validate_keypair_with_seed<
    const K: usize,
    const ETA1_64: usize,
    const ETA2_64: usize,
    const J_LEN: usize,
    const EK_LEN: usize,
    const DK_LEN: usize,
    const CT_LEN: usize,
>(du: u32, dv: u32, seed: &[u8; 32], ek: &[u8; EK_LEN], dk: &[u8; DK_LEN]) -> (r: bool)
    requires
        2 <= K <= 4,
        ETA1_64 == 128 || ETA1_64 == 192,
        ETA2_64 == 128 || ETA2_64 == 192,
        1 <= du <= 11,
        1 <= dv <= 11,
        EK_LEN == 384 * K + 32,
        DK_LEN == 768 * K + 96,
        CT_LEN == 32 * du * K + 32 * dv,
        J_LEN == 32 + CT_LEN,
    ensures
        r == keypair_validates(
            K as nat,
            (ETA1_64 / 64) as nat,
            (ETA2_64 / 64) as nat,
            du as nat,
            dv as nat,
            ek@,
            dk@,
            seed@,
        ),
{
    match check_keypair::<K, EK_LEN, DK_LEN>(ek, dk) {
        Some((ek_key, dk_key)) => trial_agrees::<K, ETA1_64, ETA2_64, J_LEN, EK_LEN, DK_LEN, CT_LEN>(
            du,
            dv,
            &ek_key,
            &dk_key,
            seed,
        ),
        None => false,
    }
}

} // verus!
