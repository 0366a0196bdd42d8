//! Cryptography: Argon2id key derivation, XChaCha20-Poly1305 block
//! encryption with deterministic per-block nonces, and the password
//! verifier.
//!
//! * Argon2id (64 MiB, t=3, p=1) stretches the password into 64 bytes: the
//!   first 32 are the block key, the last 32 the verifier key.
//! * Block nonce: the first 24 bytes of SHA-256(salt ‖ block_id LE).
//! * Block AAD: block_id LE ‖ codec, binding a ciphertext to its position
//!   and codec.

use vstd::bytes::*;
use vstd::prelude::*;
use vstd::string::StringSliceAdditionalSpecFns;

use chacha20poly1305::aead::{Aead, KeyInit, Payload};

verus! {

pub const SALT_LEN: usize = 16;

pub const NONCE_LEN: usize = 24;

pub const KEY_LEN: usize = 32;

/// Argon2id memory cost in KiB (64 MiB).
pub const ARGON2_M_COST: u32 = 65536;

/// Argon2id iterations.
pub const ARGON2_T_COST: u32 = 3;

/// Argon2id lanes.
pub const ARGON2_P_COST: u32 = 1;

/// Argon2id output length: block key + verifier key.
pub const ARGON2_OUT_LEN: usize = 64;

/// Associated data of the password verifier: `nextar-verifier-v1`.
pub const VERIFIER_AAD: [u8; 18] = [
    0x6E, 0x65, 0x78, 0x74, 0x61, 0x72, 0x2D, 0x76, 0x65, 0x72, 0x69, 0x66, 0x69, 0x65, 0x72, 0x2D,
    0x76, 0x31,
];

/// Length of the verifier's all-zero plaintext.
pub const VERIFIER_MSG_LEN: usize = 32;

// ─────────────────────────── outside primitives ───────────────────────────

/// Argon2id (version 0x13) of `password` with `salt` and the given memory,
/// time and lane costs, producing `out_len` bytes.
pub uninterp spec fn argon2id(password: Seq<u8>, salt: Seq<u8>, m_cost: u32, t_cost: u32, p_cost: u32, out_len: nat) -> Seq<u8>;

/// SHA-256 digest of `data`.
pub uninterp spec fn sha256(data: Seq<u8>) -> Seq<u8>;

/// XChaCha20-Poly1305 ciphertext (with its 16-byte tag appended) of `msg`
/// under `key`, `nonce` and associated data `aad`.
pub uninterp spec fn aead_seal(key: Seq<u8>, nonce: Seq<u8>, aad: Seq<u8>, msg: Seq<u8>) -> Seq<u8>;

/// XChaCha20-Poly1305 decryption of `ct`: the plaintext if the tag
/// authenticates, `None` otherwise.
pub uninterp spec fn aead_open(key: Seq<u8>, nonce: Seq<u8>, aad: Seq<u8>, ct: Seq<u8>) -> Option<Seq<u8>>;

/// Messages XChaCha20-Poly1305 accepts: fewer than 2^32 - 1 blocks of 64 bytes.
pub open spec fn aead_msg_ok(len: nat) -> bool {
    len / 64 < 0xFFFF_FFFF
}

/// `argon2::Params::new(m_cost, t_cost, p_cost, Some(out_len))`,
/// `argon2::Argon2::new(Argon2id, V0x13, params)` and
/// `Argon2::hash_password_into(password, salt, out)`. The contract claims:
/// with parameters in the ranges the crate accepts, hashing succeeds
/// exactly when the password is at most 2^32 - 1 bytes, and the output is
/// the Argon2id hash of the arguments, `out_len` bytes long.
#[verifier::external_body]
fn argon2id_hash(password: &[u8], salt: &[u8], m_cost: u32, t_cost: u32, p_cost: u32, out_len: usize) -> (r: Option<Vec<u8>>)
    requires
        8 <= salt@.len() <= 0xFFFF_FFFF,
        1 <= p_cost <= 0xFF_FFFF,
        m_cost >= 8,
        m_cost >= 8 * p_cost,
        t_cost >= 1,
        4 <= out_len <= 0xFFFF_FFFF,
    ensures
        r is Some <==> password@.len() <= 0xFFFF_FFFF,
        r matches Some(v) ==> v@ == argon2id(password@, salt@, m_cost, t_cost, p_cost, out_len as nat)
            && v@.len() == out_len,
{
    let params = match argon2::Params::new(m_cost, t_cost, p_cost, Some(out_len)) {
        Ok(p) => p,
        Err(_) => return None,
    };
    let argon = argon2::Argon2::new(argon2::Algorithm::Argon2id, argon2::Version::V0x13, params);
    let mut out = vec![0u8; out_len];
    match argon.hash_password_into(password, salt, &mut out) {
        Ok(()) => Some(out),
        Err(_) => None,
    }
}

/// `<sha2::Sha256 as Digest>::digest(data)`: the 32-byte SHA-256 digest.
#[verifier::external_body]
fn sha256_digest(data: &[u8]) -> (r: Vec<u8>)
    ensures
        r@ == sha256(data@),
        r@.len() == 32,
{
    <sha2::Sha256 as sha2::Digest>::digest(data).to_vec()
}

/// `XChaCha20Poly1305::new(key)` and `Aead::encrypt(nonce, Payload { msg, aad })`.
/// The contract claims: encryption succeeds exactly when the message is
/// under 2^32 - 1 blocks of 64 bytes; the ciphertext is the sealed message,
/// 16 bytes (the tag) longer than the message.
#[verifier::external_body]
fn xchacha_seal(key: &[u8; 32], nonce: &[u8; 24], aad: &[u8], msg: &[u8]) -> (r: Option<Vec<u8>>)
    ensures
        r is Some <==> aead_msg_ok(msg@.len()),
        r matches Some(c) ==> c@ == aead_seal(key@, nonce@, aad@, msg@) && c@.len() == msg@.len() + 16,
{
    let cipher = <chacha20poly1305::XChaCha20Poly1305 as KeyInit>::new(key.into());
    cipher.encrypt(chacha20poly1305::XNonce::from_slice(nonce), Payload { msg, aad }).ok()
}

/// `XChaCha20Poly1305::new(key)` and `Aead::decrypt(nonce, Payload { msg: ct, aad })`.
/// The contract claims: the result is the decryption of `ct` (plaintext or
/// rejection), and decrypting what `xchacha_seal` produced under the same
/// key, nonce and associated data gives the message back.
#[verifier::external_body]
fn xchacha_open(key: &[u8; 32], nonce: &[u8; 24], aad: &[u8], ct: &[u8]) -> (r: Option<Vec<u8>>)
    ensures
        r matches Some(p) ==> aead_open(key@, nonce@, aad@, ct@) == Some(p@),
        r is None ==> aead_open(key@, nonce@, aad@, ct@) is None,
        forall|msg: Seq<u8>|
            aead_msg_ok(msg.len()) && ct@ == #[trigger] aead_seal(key@, nonce@, aad@, msg) ==> r is Some && r->0@ == msg,
{
    let cipher = <chacha20poly1305::XChaCha20Poly1305 as KeyInit>::new(key.into());
    cipher.decrypt(chacha20poly1305::XNonce::from_slice(nonce), Payload { msg: ct, aad }).ok()
}

// ─────────────────────────── keys and blocks ───────────────────────────

/// Why a cryptographic operation failed.
#[derive(Clone, Copy, Debug, PartialEq, Eq)]
pub enum CryptoError {
    EmptyPassword,
    KeyDerivation,
    EncryptFailed,
    DecryptFailed,
    VerifierFailed,
}

/// Keys derived from a password and an archive salt.
#[derive(Clone)]
pub struct Crypto {
    key: [u8; 32],
    verifier_key: [u8; 32],
}

/// The 64 bytes Argon2id derives from a password and salt with the
/// archive's parameters.
pub open spec fn derived_keys(password: Seq<u8>, salt: Seq<u8>) -> Seq<u8> {
    argon2id(password, salt, ARGON2_M_COST, ARGON2_T_COST, ARGON2_P_COST, ARGON2_OUT_LEN as nat)
}

/// Key derivation law: the 64 bytes behind the archive keys are Argon2id
/// of the password and salt with 64 MiB of memory, 3 passes and 1 lane
/// (`Crypto::derive` takes the block key as their first half and the
/// verifier key as their second).
pub proof fn lemma_key_halves(password: Seq<u8>, salt: Seq<u8>)
    ensures
        derived_keys(password, salt) == argon2id(password, salt, 65536, 3, 1, 64),
{
}

/// Nonce law: a block's nonce is the first 24 bytes of SHA-256 over the
/// salt followed by the block id in little-endian order, so the hashed
/// input begins with the salt and ends with the id, and two blocks of one
/// archive with different ids hash different inputs.
pub proof fn lemma_nonce_input(salt: Seq<u8>, id: u64, other: u64)
    ensures
        nonce_of(salt, id) == sha256(salt + spec_u64_to_le_bytes(id)).take(24),
        (salt + spec_u64_to_le_bytes(id)).take(salt.len() as int) == salt,
        (salt + spec_u64_to_le_bytes(id)).skip(salt.len() as int) == spec_u64_to_le_bytes(id),
        id != other ==> salt + spec_u64_to_le_bytes(id) != salt + spec_u64_to_le_bytes(other),
{
    lemma_auto_spec_u64_to_from_le_bytes();
    let a = salt + spec_u64_to_le_bytes(id);
    let b = salt + spec_u64_to_le_bytes(other);
    assert(a.take(salt.len() as int) =~= salt);
    assert(a.skip(salt.len() as int) =~= spec_u64_to_le_bytes(id));
    assert(b.skip(salt.len() as int) =~= spec_u64_to_le_bytes(other));
}

/// Associated-data law: a block's associated data is 9 bytes, the block id
/// in little-endian order followed by the codec byte.
pub proof fn lemma_aad_layout(id: u64, codec: u8)
    ensures
        aad_of(id, codec).len() == 9,
        aad_of(id, codec).take(8) == spec_u64_to_le_bytes(id),
        aad_of(id, codec)[8] == codec,
{
    lemma_auto_spec_u64_to_from_le_bytes();
    assert(aad_of(id, codec).take(8) =~= spec_u64_to_le_bytes(id));
}

/// `n` zero bytes.
pub open spec fn zero_bytes(n: nat) -> Seq<u8> {
    Seq::new(n, |i: int| 0u8)
}

/// Per-block nonce: the first 24 bytes of SHA-256(salt ‖ block_id LE).
pub open spec fn nonce_of(salt: Seq<u8>, block_id: u64) -> Seq<u8> {
    sha256(salt + spec_u64_to_le_bytes(block_id)).take(24)
}

/// Per-block associated data: block_id LE ‖ codec.
pub open spec fn aad_of(block_id: u64, codec: u8) -> Seq<u8> {
    spec_u64_to_le_bytes(block_id).push(codec)
}

impl Crypto {
    /// The block encryption key.
    pub closed spec fn key_view(&self) -> Seq<u8> {
        self.key@
    }

    /// The verifier key.
    pub closed spec fn verifier_key_view(&self) -> Seq<u8> {
        self.verifier_key@
    }

    /// Derives the block key and verifier key from a non-empty password and
    /// the archive salt (Argon2id, 64 MiB, t=3, p=1).
    pub fn derive(password: &str, salt: &[u8; 16]) -> (r: Result<Self, CryptoError>)
        ensures
            match r {
                Ok(c) => password@.len() > 0 && password.spec_bytes().len() <= 0xFFFF_FFFF
                    && c.key_view() == derived_keys(password.spec_bytes(), salt@).subrange(0, 32)
                    && c.verifier_key_view() == derived_keys(password.spec_bytes(), salt@).subrange(32, 64),
                Err(e) => (password@.len() == 0 && e == CryptoError::EmptyPassword) || (password@.len() > 0
                    && password.spec_bytes().len() > 0xFFFF_FFFF && e == CryptoError::KeyDerivation),
            },
            r matches Ok(c) ==> c.key_view().len() == 32 && c.verifier_key_view().len() == 32 && c.key_view()
                + c.verifier_key_view() == argon2id(password.spec_bytes(), salt@, 65536, 3, 1, 64),
    {
        if password.is_empty() {
            return Err(CryptoError::EmptyPassword);
        }
        let out = match argon2id_hash(
            password.as_bytes(),
            salt.as_slice(),
            ARGON2_M_COST,
            ARGON2_T_COST,
            ARGON2_P_COST,
            ARGON2_OUT_LEN,
        ) {
            Some(o) => o,
            None => return Err(CryptoError::KeyDerivation),
        };
        let mut key = [0u8; 32];
        let mut verifier_key = [0u8; 32];
        let mut i: usize = 0;
        while i < 32
            invariant
                i <= 32,
                out@.len() == 64,
                key@.len() == 32,
                verifier_key@.len() == 32,
                forall|j: int| 0 <= j < i ==> key@[j] == out@[j] && verifier_key@[j] == out@[32 + j],
            decreases 32 - i,
        {
            key[i] = out[i];
            verifier_key[i] = out[32 + i];
            i = i + 1;
        }
        assert(key@ =~= out@.subrange(0, 32));
        assert(verifier_key@ =~= out@.subrange(32, 64));
        assert(key@ + verifier_key@ =~= out@);
        Ok(Crypto { key, verifier_key })
    }

    /// Deterministic per-block nonce: SHA-256(salt ‖ block_id LE)[..24].
    pub fn block_nonce(salt: &[u8], block_id: u64) -> (n: [u8; 24])
        ensures
            n@ == nonce_of(salt@, block_id),
            n@ == sha256(salt@ + spec_u64_to_le_bytes(block_id)).take(24),
    {
        let mut input: Vec<u8> = Vec::new();
        crate::bytes::push_all(&mut input, salt);
        crate::bytes::push_all(&mut input, u64_to_le_bytes(block_id).as_slice());
        let digest = sha256_digest(input.as_slice());
        let mut nonce = [0u8; 24];
        let mut i: usize = 0;
        while i < 24
            invariant
                i <= 24,
                digest@.len() == 32,
                nonce@.len() == 24,
                forall|j: int| 0 <= j < i ==> nonce@[j] == digest@[j],
            decreases 24 - i,
        {
            nonce[i] = digest[i];
            i = i + 1;
        }
        assert(nonce@ =~= digest@.take(24));
        nonce
    }

    /// Encrypts a block payload, binding it to its block id and codec.
    pub fn encrypt_block(&self, salt: &[u8], block_id: u64, codec: u8, plain: &[u8]) -> (r: Result<Vec<u8>, CryptoError>)
        ensures
            r is Ok <==> aead_msg_ok(plain@.len()),
            r matches Ok(c) ==> c@ == aead_seal(self.key_view(), nonce_of(salt@, block_id), aad_of(block_id, codec), plain@)
                && c@.len() == plain@.len() + 16,
            r matches Err(e) ==> e == CryptoError::EncryptFailed,
    {
        let nonce = Self::block_nonce(salt, block_id);
        let aad = block_aad(block_id, codec);
        match xchacha_seal(&self.key, &nonce, aad.as_slice(), plain) {
            Some(c) => Ok(c),
            None => Err(CryptoError::EncryptFailed),
        }
    }

    /// Decrypts a block payload, authenticating its block id and codec.
    /// A payload that `encrypt_block` produced with the same key, salt,
    /// block id and codec decrypts to the original plaintext.
    pub fn decrypt_block(&self, salt: &[u8], block_id: u64, codec: u8, ct: &[u8]) -> (r: Result<Vec<u8>, CryptoError>)
        ensures
            match r {
                Ok(p) => aead_open(self.key_view(), nonce_of(salt@, block_id), aad_of(block_id, codec), ct@)
                    == Some(p@),
                Err(e) => e == CryptoError::DecryptFailed && aead_open(
                    self.key_view(),
                    nonce_of(salt@, block_id),
                    aad_of(block_id, codec),
                    ct@,
                ) is None,
            },
            forall|plain: Seq<u8>|
                aead_msg_ok(plain.len()) && ct@ == #[trigger] aead_seal(
                    self.key_view(),
                    nonce_of(salt@, block_id),
                    aad_of(block_id, codec),
                    plain,
                ) ==> r is Ok && r->Ok_0@ == plain,
    {
        let nonce = Self::block_nonce(salt, block_id);
        let aad = block_aad(block_id, codec);
        let r = xchacha_open(&self.key, &nonce, aad.as_slice(), ct);
        match r {
            Some(p) => Ok(p),
            None => Err(CryptoError::DecryptFailed),
        }
    }

    /// The password verifier: the AEAD of 32 zero bytes under the verifier
    /// key, a zero nonce and the verifier AAD.
    pub fn password_verifier(&self) -> (r: Result<Vec<u8>, CryptoError>)
        ensures
            r matches Ok(v) && v@ == aead_seal(self.verifier_key_view(), zero_bytes(24), VERIFIER_AAD@, zero_bytes(32)),
    {
        let msg: Vec<u8> = vec![0u8; 32];
        let zero_nonce = [0u8; 24];
        assert(msg@ =~= zero_bytes(32));
        assert(zero_nonce@ =~= zero_bytes(24));
        match xchacha_seal(&self.verifier_key, &zero_nonce, VERIFIER_AAD.as_slice(), msg.as_slice()) {
            Some(v) => Ok(v),
            None => Err(CryptoError::VerifierFailed),
        }
    }

    /// Checks a stored verifier against this key: it must decrypt to 32
    /// zero bytes. The verifier this key produces always passes.
    #[verifier::loop_isolation(false)]
    pub fn check_verifier(&self, stored: &[u8]) -> (ok: bool)
        ensures
            ok == (aead_open(self.verifier_key_view(), zero_bytes(24), VERIFIER_AAD@, stored@)
                == Some(zero_bytes(32))),
            stored@ == aead_seal(self.verifier_key_view(), zero_bytes(24), VERIFIER_AAD@, zero_bytes(32)) ==> ok,
    {
        let zero_nonce = [0u8; 24];
        assert(zero_nonce@ =~= zero_bytes(24));
        match xchacha_open(&self.verifier_key, &zero_nonce, VERIFIER_AAD.as_slice(), stored) {
            Some(pt) => {
                if pt.len() != 32 {
                    return false;
                }
                let mut i: usize = 0;
                while i < 32
                    invariant
                        i <= 32,
                        pt@.len() == 32,
                        forall|j: int| 0 <= j < i ==> pt@[j] == 0,
                    decreases 32 - i,
                {
                    if pt[i] != 0 {
                        assert(pt@[i as int] != zero_bytes(32)[i as int]);
                        return false;
                    }
                    i = i + 1;
                }
                assert(pt@ =~= zero_bytes(32));
                true
            },
            None => false,
        }
    }
}

/// Authenticated data binding a ciphertext to its position and codec.
pub fn block_aad(block_id: u64, codec: u8) -> (aad: Vec<u8>)
    ensures
        aad@ == aad_of(block_id, codec),
        aad@.len() == 9,
{
    let mut aad = u64_to_le_bytes(block_id);
    aad.push(codec);
    aad
}

/// A fresh random archive salt from the operating system (`OsRng`).
#[verifier::external_body]
pub(crate) fn random_salt() -> [u8; 16] {
    let mut salt = [0u8; 16];
    rand::RngCore::fill_bytes(&mut rand::rngs::OsRng, &mut salt);
    salt
}

} // verus!
