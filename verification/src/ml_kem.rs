//! The key encapsulation on byte strings: key generation, encapsulation with
//! a given message, and decapsulation with implicit rejection.
use crate::Error;
use crate::SharedSecretKey;
use crate::constant_time::{conditional_assign, ct_ne, wipe};
use crate::helpers::{g, g_spec, h, h_spec, j, j_spec, join};
use crate::k_pke::{
    canonical, copy_at, expands, k_pke_decrypt, k_pke_decrypt_spec, k_pke_encrypt,
    k_pke_encrypt_spec, k_pke_key_gen, k_pke_key_gen_spec, key_gen_rho,
};
use crate::traits::RandomSource;
use vstd::prelude::*;

verus! {

/// Whether `ek` is an encapsulation key of `k` polynomials: of the right
/// length, with every coefficient below `Q`, and with a seed whose matrix
/// can be sampled.
pub open spec fn valid_ek(k: nat, ek: Seq<u8>) -> bool {
    &&& ek.len() == 384 * k + 32
    &&& canonical(k, ek.subrange(0, (384 * k) as int))
    &&& expands(ek.subrange((384 * k) as int, (384 * k + 32) as int), k)
}

/// The encapsulation key that a decapsulation key of `k` polynomials holds.
pub open spec fn dk_ek(k: nat, dk: Seq<u8>) -> Seq<u8> {
    dk.subrange((384 * k) as int, (768 * k + 32) as int)
}

/// The digest that a decapsulation key of `k` polynomials holds.
pub open spec fn dk_hash(k: nat, dk: Seq<u8>) -> Seq<u8> {
    dk.subrange((768 * k + 32) as int, (768 * k + 64) as int)
}

/// Whether `dk` is a decapsulation key of `k` polynomials: of the right
/// length, holding a valid encapsulation key and the digest of that key.
pub open spec fn valid_dk(k: nat, dk: Seq<u8>) -> bool {
    &&& dk.len() == 768 * k + 96
    &&& valid_ek(k, dk_ek(k, dk))
    &&& dk_hash(k, dk) == h_spec(dk_ek(k, dk))
}

/// The key pair `(ek, dk)` of `ML-KEM.KeyGen_internal(d, z)`:
/// `dk = dk_PKE || ek || H(ek) || z`.
pub open spec fn ml_kem_key_gen_spec(k: nat, eta1: nat, d: Seq<u8>, z: Seq<u8>) -> (
    Seq<u8>,
    Seq<u8>,
) {
    let (ek, dk_pke) = k_pke_key_gen_spec(k, eta1, d);
    (ek, dk_pke + ek + h_spec(ek) + z)
}

/// The shared secret and the ciphertext `(K, c)` of
/// `ML-KEM.Encaps_internal(ek, m)`.
pub open spec fn ml_kem_encaps_spec(
    k: nat,
    eta1: nat,
    eta2: nat,
    du: nat,
    dv: nat,
    ek: Seq<u8>,
    m: Seq<u8>,
) -> (Seq<u8>, Seq<u8>) {
    let (key, r) = g_spec(m + h_spec(ek));
    (key, k_pke_encrypt_spec(k, eta1, eta2, du, dv, ek, m, r))
}

/// The shared secret of `ML-KEM.Decaps_internal(dk, c)`: the secret of the
/// message that `c` decrypts to where that message encrypts to `c` again,
/// and `J(z, c)` where it does not.
pub open spec fn ml_kem_decaps_spec(
    k: nat,
    eta1: nat,
    eta2: nat,
    du: nat,
    dv: nat,
    dk: Seq<u8>,
    c: Seq<u8>,
) -> Seq<u8> {
    let dk_pke = dk.subrange(0, (384 * k) as int);
    let ek_pke = dk_ek(k, dk);
    let hash = dk_hash(k, dk);
    let z = dk.subrange((768 * k + 64) as int, (768 * k + 96) as int);
    let m1 = k_pke_decrypt_spec(k, du, dv, dk_pke, c);
    let (key1, r1) = g_spec(m1 + hash);
    let key_bar = j_spec(z, c);
    let c1 = k_pke_encrypt_spec(k, eta1, eta2, du, dv, ek_pke, m1, r1);
    if c == c1 {
        key1
    } else {
        key_bar
    }
}

/// Decapsulation gives back the encapsulated secret wherever decryption
/// gives back the encrypted message: for a decapsulation key `dk` that holds
/// the digest of its encapsulation key, and every message `m` that the
/// ciphertext of `m` decrypts to, the shared secret of that ciphertext is the
/// one that was encapsulated with `m`.
pub proof fn lemma_decaps_of_encaps(
    k: nat,
    eta1: nat,
    eta2: nat,
    du: nat,
    dv: nat,
    dk: Seq<u8>,
    m: Seq<u8>,
)
    requires
        dk_hash(k, dk) == h_spec(dk_ek(k, dk)),
        k_pke_decrypt_spec(
            k,
            du,
            dv,
            dk.subrange(0, (384 * k) as int),
            ml_kem_encaps_spec(k, eta1, eta2, du, dv, dk_ek(k, dk), m).1,
        ) == m,
    ensures
        ml_kem_decaps_spec(
            k,
            eta1,
            eta2,
            du,
            dv,
            dk,
            ml_kem_encaps_spec(k, eta1, eta2, du, dv, dk_ek(k, dk), m).1,
        ) == ml_kem_encaps_spec(k, eta1, eta2, du, dv, dk_ek(k, dk), m).0,
{
}

/// Implicit rejection: a ciphertext `c` that is not the encryption of the
/// message it decrypts to, with the randomness that this message determines,
/// has the shared secret `J(z, c)`, for the `z` at the end of `dk`.
pub proof fn lemma_implicit_rejection(
    k: nat,
    eta1: nat,
    eta2: nat,
    du: nat,
    dv: nat,
    dk: Seq<u8>,
    c: Seq<u8>,
)
    requires
        ({
            let m1 = k_pke_decrypt_spec(k, du, dv, dk.subrange(0, (384 * k) as int), c);
            let r1 = g_spec(m1 + dk_hash(k, dk)).1;
            k_pke_encrypt_spec(k, eta1, eta2, du, dv, dk_ek(k, dk), m1, r1) != c
        }),
    ensures
        ml_kem_decaps_spec(k, eta1, eta2, du, dv, dk, c) == j_spec(
            dk.subrange((768 * k + 64) as int, (768 * k + 96) as int),
            c,
        ),
{
}

/// `ML-KEM.KeyGen_internal(d, z)`: writes the encapsulation key into `ek`
/// and the decapsulation key into `dk`. Where the matrix cannot be sampled,
/// nothing is written.
pub fn ml_kem_key_gen_internal<const K: usize, const ETA1_64: usize>(
    d: [u8; 32],
    z: [u8; 32],
    ek: &mut [u8],
    dk: &mut [u8],
) -> (r: Result<(), Error>)
    requires
        2 <= K <= 4,
        ETA1_64 == 128 || ETA1_64 == 192,
        old(ek)@.len() == 384 * K + 32,
        old(dk)@.len() == 768 * K + 96,
    ensures
        final(ek)@.len() == old(ek)@.len(),
        final(dk)@.len() == old(dk)@.len(),
        match r {
            Ok(()) => {
                &&& expands(key_gen_rho(K as nat, d@), K as nat)
                &&& final(ek)@ == ml_kem_key_gen_spec(K as nat, (ETA1_64 / 64) as nat, d@, z@).0
                &&& final(dk)@ == ml_kem_key_gen_spec(K as nat, (ETA1_64 / 64) as nat, d@, z@).1
            },
            Err(e) => {
                &&& e == Error::SamplingExhausted
                &&& !expands(key_gen_rho(K as nat, d@), K as nat)
                &&& final(ek)@ == old(ek)@
                &&& final(dk)@ == old(dk)@
            },
        },
{
    match k_pke_key_gen::<K, ETA1_64>(d, ek, dk) {
        Ok(()) => {},
        Err(e) => {
            return Err(e);
        },
    }
    let h_ek = h(ek);
    let ek_at: usize = 384 * K;
    let hash_at: usize = ek_at + 384 * K + 32;
    let z_at: usize = hash_at + 32;
    copy_at(dk, ek_at, ek);
    copy_at(dk, hash_at, h_ek.as_slice());
    copy_at(dk, z_at, z.as_slice());
    proof {
        let dk_pke = k_pke_key_gen_spec(K as nat, (ETA1_64 / 64) as nat, d@).1;
        assert(dk@.subrange(0, ek_at as int) =~= dk_pke);
        assert(dk@.subrange(ek_at as int, hash_at as int) =~= ek@);
        assert(dk@.subrange(hash_at as int, z_at as int) =~= h_ek@);
        assert(dk@.subrange(z_at as int, z_at + 32) =~= z@);
        assert(dk@ =~= dk@.subrange(0, ek_at as int) + dk@.subrange(ek_at as int, hash_at as int)
            + dk@.subrange(hash_at as int, z_at as int) + dk@.subrange(z_at as int, z_at + 32));
    }
    Ok(())
}

/// `ML-KEM.Encaps_internal(ek, m)`: writes the ciphertext into `ct` and
/// gives the shared secret. Where the key is not canonical or its matrix
/// cannot be sampled, nothing is written.
pub fn ml_kem_encaps_internal<const K: usize, const ETA1_64: usize, const ETA2_64: usize>(
    du: u32,
    dv: u32,
    m: &[u8; 32],
    ek: &[u8],
    ct: &mut [u8],
) -> (res: Result<SharedSecretKey, Error>)
    requires
        2 <= K <= 4,
        ETA1_64 == 128 || ETA1_64 == 192,
        ETA2_64 == 128 || ETA2_64 == 192,
        1 <= du <= 11,
        1 <= dv <= 11,
        ek@.len() == 384 * K + 32,
        old(ct)@.len() == 32 * du * K + 32 * dv,
    ensures
        final(ct)@.len() == old(ct)@.len(),
        match res {
            Ok(ssk) => {
                &&& valid_ek(K as nat, ek@)
                &&& ssk@ == ml_kem_encaps_spec(
                    K as nat,
                    (ETA1_64 / 64) as nat,
                    (ETA2_64 / 64) as nat,
                    du as nat,
                    dv as nat,
                    ek@,
                    m@,
                ).0
                &&& final(ct)@ == ml_kem_encaps_spec(
                    K as nat,
                    (ETA1_64 / 64) as nat,
                    (ETA2_64 / 64) as nat,
                    du as nat,
                    dv as nat,
                    ek@,
                    m@,
                ).1
            },
            Err(e) => {
                &&& final(ct)@ == old(ct)@
                &&& !valid_ek(K as nat, ek@)
                &&& e == Error::InvalidEncoding || e == Error::SamplingExhausted
                &&& e == Error::InvalidEncoding <==> !canonical(
                    K as nat,
                    ek@.subrange(0, 384 * K),
                )
            },
        },
{
    let h_ek = h(ek);
    let mut input: [u8; 64] = join::<64>(m.as_slice(), h_ek.as_slice());
    let (mut k, mut r) = g(input.as_slice());
    wipe(&mut input);
    let res = match k_pke_encrypt::<K, ETA1_64, ETA2_64>(du, dv, ek, m.as_slice(), &r, ct) {
        Ok(()) => Ok(SharedSecretKey::new(k)),
        Err(e) => Err(e),
    };
    wipe(&mut k);
    wipe(&mut r);
    res
}

/// `ML-KEM.Decaps_internal(dk, c)`: the shared secret of the ciphertext
/// `ct`.
///
/// The message that `ct` decrypts to is encrypted again with the randomness
/// that it determines. Where the outcome is `ct`, the secret of the message
/// is given, and where it is not, the secret `J(z, ct)`: the choice is made
/// without a branch on either.
pub fn ml_kem_decaps_internal<
    const K: usize,
    const ETA1_64: usize,
    const ETA2_64: usize,
    const J_LEN: usize,
    const CT_LEN: usize,
>(du: u32, dv: u32, dk: &[u8], ct: &[u8; CT_LEN]) -> (res: Result<SharedSecretKey, Error>)
    requires
        2 <= K <= 4,
        ETA1_64 == 128 || ETA1_64 == 192,
        ETA2_64 == 128 || ETA2_64 == 192,
        1 <= du <= 11,
        1 <= dv <= 11,
        dk@.len() == 768 * K + 96,
        CT_LEN == 32 * du * K + 32 * dv,
        J_LEN == 32 + CT_LEN,
    ensures
        match res {
            Ok(ssk) => {
                &&& canonical(K as nat, dk@.subrange(0, 384 * K))
                &&& valid_ek(K as nat, dk_ek(K as nat, dk@))
                &&& ssk@ == ml_kem_decaps_spec(
                    K as nat,
                    (ETA1_64 / 64) as nat,
                    (ETA2_64 / 64) as nat,
                    du as nat,
                    dv as nat,
                    dk@,
                    ct@,
                )
            },
            Err(e) => {
                &&& e == Error::InvalidEncoding || e == Error::SamplingExhausted
                &&& e == Error::InvalidEncoding <==> (!canonical(
                    K as nat,
                    dk@.subrange(0, 384 * K),
                ) || !canonical(K as nat, dk_ek(K as nat, dk@).subrange(0, 384 * K)))
                &&& !(canonical(K as nat, dk@.subrange(0, 384 * K)) && valid_ek(
                    K as nat,
                    dk_ek(K as nat, dk@),
                ))
            },
        },
{
    let dk_pke = &dk[0..384 * K];
    let ek_pke = &dk[384 * K..768 * K + 32];
    let hash = &dk[768 * K + 32..768 * K + 64];
    let z_slice = &dk[768 * K + 64..768 * K + 96];
    let mut z: [u8; 32] = [0u8; 32];
    let mut i: usize = 0;
    while i < 32
        invariant
            i <= 32,
            z_slice@.len() == 32,
            forall|t: int| 0 <= t < i ==> z@[t] == z_slice@[t],
        decreases 32 - i,
    {
        z[i] = z_slice[i];
        i = i + 1;
    }
    proof {
        assert(z@ =~= z_slice@);
    }
    let mut m_prime = match k_pke_decrypt::<K>(du, dv, dk_pke, ct.as_slice()) {
        Ok(m) => m,
        Err(e) => {
            wipe(&mut z);
            return Err(e);
        },
    };
    let mut input: [u8; 64] = join::<64>(m_prime.as_slice(), hash);
    let (mut k_prime, mut r_prime) = g(input.as_slice());
    wipe(&mut input);
    let mut k_bar = j::<J_LEN>(&z, ct.as_slice());
    let mut c_prime: [u8; CT_LEN] = [0u8; CT_LEN];
    let res = match k_pke_encrypt::<K, ETA1_64, ETA2_64>(
        du,
        dv,
        ek_pke,
        m_prime.as_slice(),
        &r_prime,
        &mut c_prime,
    ) {
        Ok(()) => {
            let differ = ct_ne(ct.as_slice(), c_prime.as_slice());
            conditional_assign(&mut k_prime, &k_bar, differ);
            Ok(SharedSecretKey::new(k_prime))
        },
        Err(e) => Err(e),
    };
    wipe(&mut z);
    wipe(&mut m_prime);
    wipe(&mut r_prime);
    wipe(&mut k_prime);
    wipe(&mut k_bar);
    wipe(&mut c_prime);
    res
}

/// `ML-KEM.Decaps(dk, c)`: the shared secret of the ciphertext `ct`, as
/// `ml_kem_decaps_internal` gives it.
pub fn ml_kem_decaps<
    const K: usize,
    const ETA1_64: usize,
    const ETA2_64: usize,
    const J_LEN: usize,
    const CT_LEN: usize,
>(du: u32, dv: u32, dk: &[u8], ct: &[u8; CT_LEN]) -> (res: Result<SharedSecretKey, Error>)
    requires
        2 <= K <= 4,
        ETA1_64 == 128 || ETA1_64 == 192,
        ETA2_64 == 128 || ETA2_64 == 192,
        1 <= du <= 11,
        1 <= dv <= 11,
        dk@.len() == 768 * K + 96,
        CT_LEN == 32 * du * K + 32 * dv,
        J_LEN == 32 + CT_LEN,
    ensures
        match res {
            Ok(ssk) => {
                &&& canonical(K as nat, dk@.subrange(0, 384 * K))
                &&& valid_ek(K as nat, dk_ek(K as nat, dk@))
                &&& ssk@ == ml_kem_decaps_spec(
                    K as nat,
                    (ETA1_64 / 64) as nat,
                    (ETA2_64 / 64) as nat,
                    du as nat,
                    dv as nat,
                    dk@,
                    ct@,
                )
            },
            Err(e) => {
                &&& e == Error::InvalidEncoding || e == Error::SamplingExhausted
                &&& e == Error::InvalidEncoding <==> (!canonical(
                    K as nat,
                    dk@.subrange(0, 384 * K),
                ) || !canonical(K as nat, dk_ek(K as nat, dk@).subrange(0, 384 * K)))
                &&& !(canonical(K as nat, dk@.subrange(0, 384 * K)) && valid_ek(
                    K as nat,
                    dk_ek(K as nat, dk@),
                ))
            },
        },
{
    ml_kem_decaps_internal::<K, ETA1_64, ETA2_64, J_LEN, CT_LEN>(du, dv, dk, ct)
}

/// `ML-KEM.KeyGen()`: draws the seeds `d` and `z` from `rng`, in this order,
/// and writes the key pair of the two into `ek` and `dk`.
pub fn ml_kem_key_gen<const K: usize, const ETA1_64: usize>(
    rng: &mut impl RandomSource,
    ek: &mut [u8],
    dk: &mut [u8],
) -> (r: Result<(), Error>)
    requires
        2 <= K <= 4,
        ETA1_64 == 128 || ETA1_64 == 192,
        old(ek)@.len() == 384 * K + 32,
        old(dk)@.len() == 768 * K + 96,
    ensures
        final(ek)@.len() == old(ek)@.len(),
        final(dk)@.len() == old(dk)@.len(),
        match r {
            Ok(()) => exists|d: Seq<u8>, z: Seq<u8>|
                {
                    &&& d.len() == 32
                    &&& z.len() == 32
                    &&& expands(key_gen_rho(K as nat, d), K as nat)
                    &&& (final(ek)@, final(dk)@) == #[trigger] ml_kem_key_gen_spec(
                        K as nat,
                        (ETA1_64 / 64) as nat,
                        d,
                        z,
                    )
                },
            Err(e) => {
                &&& e == Error::RngFailure || e == Error::SamplingExhausted
                &&& final(ek)@ == old(ek)@
                &&& final(dk)@ == old(dk)@
            },
        },
{
    let mut d: [u8; 32] = [0u8; 32];
    match rng.fill_bytes(&mut d) {
        Ok(()) => {},
        Err(_) => {
            return Err(Error::RngFailure);
        },
    }
    let mut z: [u8; 32] = [0u8; 32];
    match rng.fill_bytes(&mut z) {
        Ok(()) => {},
        Err(_) => {
            wipe(&mut d);
            return Err(Error::RngFailure);
        },
    }
    let res = ml_kem_key_gen_internal::<K, ETA1_64>(d, z, ek, dk);
    wipe(&mut d);
    wipe(&mut z);
    res
}

/// `ML-KEM.Encaps(ek)`: draws the message `m` from `rng`, writes the
/// ciphertext of `m` into `ct` and gives the shared secret.
pub fn ml_kem_encaps<const K: usize, const ETA1_64: usize, const ETA2_64: usize>(
    rng: &mut impl RandomSource,
    du: u32,
    dv: u32,
    ek: &[u8],
    ct: &mut [u8],
) -> (res: Result<SharedSecretKey, Error>)
    requires
        2 <= K <= 4,
        ETA1_64 == 128 || ETA1_64 == 192,
        ETA2_64 == 128 || ETA2_64 == 192,
        1 <= du <= 11,
        1 <= dv <= 11,
        ek@.len() == 384 * K + 32,
        old(ct)@.len() == 32 * du * K + 32 * dv,
    ensures
        final(ct)@.len() == old(ct)@.len(),
        match res {
            Ok(ssk) => {
                &&& valid_ek(K as nat, ek@)
                &&& exists|m: Seq<u8>|
                    {
                        &&& m.len() == 32
                        &&& (ssk@, final(ct)@) == #[trigger] ml_kem_encaps_spec(
                            K as nat,
                            (ETA1_64 / 64) as nat,
                            (ETA2_64 / 64) as nat,
                            du as nat,
                            dv as nat,
                            ek@,
                            m,
                        )
                    }
            },
            Err(e) => {
                &&& final(ct)@ == old(ct)@
                &&& valid_ek(K as nat, ek@) ==> e == Error::RngFailure
            },
        },
{
    let mut m: [u8; 32] = [0u8; 32];
    match rng.fill_bytes(&mut m) {
        Ok(()) => {},
        Err(_) => {
            return Err(Error::RngFailure);
        },
    }
    let res = ml_kem_encaps_internal::<K, ETA1_64, ETA2_64>(du, dv, &m, ek, ct);
    wipe(&mut m);
    res
}

} // verus!
