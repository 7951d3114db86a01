//! Cryptography: Argon2id key derivation and AES-256-GCM field encryption.

use vstd::prelude::*;
use vstd::utf8::{decode_utf8, encode_utf8, valid_utf8};

use aes_gcm::aead::{Aead, Error, KeyInit, Payload};
use aes_gcm::{Aes256Gcm, Key, Nonce};
use rand::RngCore;
use zeroize::Zeroize;

use crate::text::owned;

verus! {

/// Argon2id salt size, bytes.
pub const SALT_LEN: usize = 32;

/// AES-GCM nonce size, bytes.
pub const NONCE_LEN: usize = 12;

/// Key size, bytes.
pub const KEY_LEN: usize = 32;

/// AES-GCM tag size, bytes.
pub const TAG_LEN: usize = 16;

/// Argon2id parameters as stored in the vault.
#[derive(Debug, Clone)]
pub struct ArgonParams {
    /// Memory in KiB (64 MiB = 65536).
    pub memory_kib: u32,
    /// Number of passes.
    pub iterations: u32,
    /// Degree of parallelism.
    pub parallelism: u32,
}

impl Default for ArgonParams {
    fn default() -> (p: ArgonParams)
        ensures
            p.memory_kib == 65536,
            p.iterations == 3,
            p.parallelism == 4,
    {
        ArgonParams { memory_kib: 65536, iterations: 3, parallelism: 4 }
    }
}

/// The bytes of a key.
pub type KeyBytes = [u8; KEY_LEN];

/// An encryption key; its bytes are wiped when it is dropped.
pub struct CryptoKey(pub [u8; KEY_LEN]);

impl CryptoKey {
    /// The key's bytes.
    pub fn as_slice(&self) -> (s: &[u8])
        ensures
            s@ == self.0@,
    {
        self.0.as_slice()
    }
}

// ---------------------------------------------------------------------------
// Trusted items: the outside crates
// ---------------------------------------------------------------------------
/// `zeroize::Zeroize::zeroize` on a key array: every byte becomes zero.
#[verifier::external_body]
fn wipe(bytes: &mut [u8; KEY_LEN])
    ensures
        final(bytes)@ == Seq::new(KEY_LEN as nat, |i: int| 0u8),
    opens_invariants none
    no_unwind
{
    bytes.zeroize();
}

impl Drop for CryptoKey {
    /// Overwrites the key bytes with zeros before the key is released.
    fn drop(&mut self)
        ensures
            final(self).0@ == Seq::new(KEY_LEN as nat, |i: int| 0u8),
        opens_invariants none
        no_unwind
    {
        wipe(&mut self.0);
    }
}

/// `rand::RngCore::fill_bytes` on the thread-local generator: fills `buf`
/// with random bytes. Nothing is stated of the bytes.
#[verifier::external_body]
fn fill_random(buf: &mut [u8])
    ensures
        final(buf)@.len() == old(buf)@.len(),
{
    rand::thread_rng().fill_bytes(buf);
}

/// The 32 bytes that Argon2id (version 0x13, no secret, no associated data)
/// derives from a password and salt with the given memory, pass and lane
/// counts.
pub uninterp spec fn argon2id_output(
    password: Seq<u8>,
    salt: Seq<u8>,
    m_cost: u32,
    t_cost: u32,
    p_cost: u32,
) -> Seq<u8>;

/// The parameters that `argon2::Params::new` accepts: at least 8 KiB and
/// 8 KiB per lane, at least one pass, 1 to 2^24 - 1 lanes.
pub open spec fn argon2_params_valid(m_cost: u32, t_cost: u32, p_cost: u32) -> bool {
    &&& m_cost >= 8
    &&& m_cost >= p_cost * 8
    &&& t_cost >= 1
    &&& 1 <= p_cost <= 0xFF_FFFF
}

/// The `Display` text of the error that `argon2::Params::new` gives for
/// parameters it refuses, by the order of its checks.
pub open spec fn argon2_params_error(m_cost: u32, t_cost: u32, p_cost: u32) -> Seq<char> {
    if m_cost < 8 || m_cost < p_cost * 8 {
        "memory cost is too small"@
    } else if t_cost < 1 {
        "time cost is too small"@
    } else if p_cost < 1 {
        "not enough threads"@
    } else {
        "too many threads"@
    }
}

/// The inputs that `argon2::Argon2::hash_password_into` accepts: a password
/// of at most 2^32 - 1 bytes and a salt of 8 to 2^32 - 1 bytes.
pub open spec fn argon2_inputs_valid(password_len: nat, salt_len: nat) -> bool {
    password_len <= 0xFFFF_FFFF && 8 <= salt_len <= 0xFFFF_FFFF
}

/// The `Display` text of the error that `hash_password_into` gives for
/// inputs it refuses, by the order of its checks.
pub open spec fn argon2_inputs_error(password_len: nat, salt_len: nat) -> Seq<char> {
    if password_len > 0xFFFF_FFFF {
        "password is too long"@
    } else if salt_len < 8 {
        "salt is too short"@
    } else {
        "salt is too long"@
    }
}

/// Why Argon2id refused: the parameters, or the hashing itself (the text is
/// the outside error's `Display`).
pub enum KdfFailure {
    Params(String),
    Hash(String),
}

/// `argon2::Params::new(m, t, p, None)`, then
/// `argon2::Argon2::new(Argon2id, V0x13, params).hash_password_into` into a
/// 32-byte buffer. It fails on parameters that `Params::new` refuses and on
/// inputs that `hash_password_into` refuses (the texts are those of the
/// errors' `Display`, as the crate's source gives them); otherwise the key
/// is the Argon2id output. `p * 8` is computed in `u32`, hence the bound on `p`.
#[verifier::external_body]
fn argon2id_derive(password: &[u8], salt: &[u8], m: u32, t: u32, p: u32) -> (r: Result<KeyBytes, KdfFailure>)
    requires
        p <= u32::MAX / 8,
    ensures
        !argon2_params_valid(m, t, p) ==> r is Err && r->Err_0 is Params && r->Err_0->Params_0@ == argon2_params_error(m, t, p),
        argon2_params_valid(m, t, p) && !argon2_inputs_valid(password@.len(), salt@.len()) ==> r is Err && r->Err_0 is Hash && r->Err_0->Hash_0@ == argon2_inputs_error(password@.len(), salt@.len()),
        r is Ok <==> (argon2_params_valid(m, t, p) && argon2_inputs_valid(password@.len(), salt@.len())),
        r matches Ok(k) ==> k@ == argon2id_output(password@, salt@, m, t, p),
{
    let params = match argon2::Params::new(m, t, p, None) {
        Ok(params) => params,
        Err(e) => return Err(KdfFailure::Params(format!("{e}"))),
    };
    let mut key = [0u8;KEY_LEN];
    let argon = argon2::Argon2::new(argon2::Algorithm::Argon2id, argon2::Version::V0x13, params);
    match argon.hash_password_into(password, salt, &mut key) {
        Ok(()) => Ok(key),
        Err(e) => Err(KdfFailure::Hash(format!("{e}"))),
    }
}

/// `aes_gcm::aead::Error`, the opaque error of AES-GCM.
#[verifier::external_type_specification]
#[verifier::external_body]
pub struct ExAeadError(aes_gcm::aead::Error);

/// The AES-256-GCM ciphertext-and-tag of a plaintext under a key and nonce
/// (no associated data).
pub uninterp spec fn aes256gcm_seal(key: Seq<u8>, nonce: Seq<u8>, plaintext: Seq<u8>) -> Seq<u8>;

/// The AES-256-GCM opening of a ciphertext-and-tag: the plaintext, or
/// nothing when the tag does not authenticate it.
pub uninterp spec fn aes256gcm_open(key: Seq<u8>, nonce: Seq<u8>, ciphertext: Seq<u8>) -> Option<
    Seq<u8>,
>;

/// The largest plaintext that AES-GCM encrypts (2^36 bytes).
pub open spec fn aes_gcm_p_max() -> nat {
    0x10_0000_0000
}

/// `Aes256Gcm::encrypt` (the `aead` trait's allocating form, empty associated
/// data). It fails only on plaintexts longer than `P_MAX`; otherwise it gives
/// the ciphertext followed by a 16-byte tag, which `decrypt` opens back to the
/// plaintext under the same key and nonce.
#[verifier::external_body]
fn aes_seal(key: &[u8; KEY_LEN], nonce: &[u8], plaintext: &[u8]) -> (r: Result<Vec<u8>, Error>)
    requires
        nonce@.len() == NONCE_LEN,
    ensures
        r is Ok <==> plaintext@.len() <= aes_gcm_p_max(),
        r matches Ok(c) ==> c@ == aes256gcm_seal(key@, nonce@, plaintext@),
        r matches Ok(c) ==> c@.len() == plaintext@.len() + TAG_LEN,
        r matches Ok(c) ==> aes256gcm_open(key@, nonce@, c@) == Some(plaintext@),
{
    let cipher = Aes256Gcm::new(Key::<Aes256Gcm>::from_slice(key));
    cipher.encrypt(Nonce::from_slice(nonce), Payload { msg: plaintext, aad: &[] })
}

/// `Aes256Gcm::decrypt` (allocating form, empty associated data): the
/// plaintext when the tag authenticates the ciphertext, an error otherwise;
/// a ciphertext shorter than the tag is always refused.
#[verifier::external_body]
fn aes_open(key: &[u8; KEY_LEN], nonce: &[u8], ciphertext: &[u8]) -> (r: Result<Vec<u8>, Error>)
    requires
        nonce@.len() == NONCE_LEN,
    ensures
        match r {
            Ok(p) => aes256gcm_open(key@, nonce@, ciphertext@) == Some(p@),
            Err(_) => aes256gcm_open(key@, nonce@, ciphertext@) is None,
        },
        ciphertext@.len() < TAG_LEN ==> r is Err,
{
    let cipher = Aes256Gcm::new(Key::<Aes256Gcm>::from_slice(key));
    cipher.decrypt(Nonce::from_slice(nonce), Payload { msg: ciphertext, aad: &[] })
}

/// `Display` of `aes_gcm::aead::Error`, which writes `aead::Error`.
#[verifier::external_body]
fn aead_error_text(e: &Error) -> (r: String)
    ensures
        r@ == "aead::Error"@,
{
    format!("{e}")
}

/// `String::from_utf8`: the text when the bytes are valid UTF-8.
#[verifier::external_body]
fn utf8_string(bytes: Vec<u8>) -> (r: Option<String>)
    ensures
        r is Some <==> valid_utf8(bytes@),
        r matches Some(s) ==> s@ == decode_utf8(bytes@),
{
    String::from_utf8(bytes).ok()
}

// ---------------------------------------------------------------------------
// Verified functions
// ---------------------------------------------------------------------------
/// A fresh random salt.
pub fn generate_salt() -> (salt: [u8; SALT_LEN]) {
    let mut salt = [0u8;SALT_LEN];
    fill_random(&mut salt);
    salt
}

/// Whether `derive_key` succeeds: valid parameters, a password of at most
/// 2^32 - 1 UTF-8 bytes and a salt of 8 to 2^32 - 1 bytes.
pub open spec fn derive_key_ok(password: Seq<char>, salt: Seq<u8>, params: ArgonParams) -> bool {
    argon2_params_valid(params.memory_kib, params.iterations, params.parallelism)
        && argon2_inputs_valid(encode_utf8(password).len(), salt.len())
}

/// What `derive_key` gives: the Argon2id key of the password's UTF-8 bytes,
/// or the message of the refusal.
pub open spec fn derive_key_spec(password: Seq<char>, salt: Seq<u8>, params: ArgonParams) -> Result<Seq<u8>, Seq<char>> {
    let (m, t, p) = (params.memory_kib, params.iterations, params.parallelism);
    if !argon2_params_valid(m, t, p) {
        Err("Некорректные параметры Argon2: "@ + argon2_params_error(m, t, p))
    } else if !argon2_inputs_valid(encode_utf8(password).len(), salt.len()) {
        Err("Ошибка вывода ключа: "@ + argon2_inputs_error(encode_utf8(password).len(), salt.len()))
    } else {
        Ok(argon2id_output(encode_utf8(password), salt, m, t, p))
    }
}

/// Derives a 32-byte key from the master password with Argon2id.
pub fn derive_key(master_password: &str, salt: &[u8], params: &ArgonParams) -> (r: Result<CryptoKey, String>)
    requires
        params.parallelism <= u32::MAX / 8,
    ensures
        r is Ok <==> derive_key_ok(master_password@, salt@, *params),
        match derive_key_spec(master_password@, salt@, *params) {
            Ok(k) => r is Ok && r->Ok_0.0@ == k,
            Err(m) => r is Err && r->Err_0@ == m,
        },
{
    let pw = master_password.as_bytes();
    match argon2id_derive(pw, salt, params.memory_kib, params.iterations, params.parallelism) {
        Ok(k) => Ok(CryptoKey(k)),
        Err(KdfFailure::Params(e)) => Err(owned("Некорректные параметры Argon2: ").concat(e.as_str())),
        Err(KdfFailure::Hash(e)) => Err(owned("Ошибка вывода ключа: ").concat(e.as_str())),
    }
}

/// A blob made by `encrypt`: a 12-byte nonce, then the AES-256-GCM sealing of
/// the plaintext under that nonce, which opens back to the plaintext.
pub open spec fn sealed(key: Seq<u8>, plaintext: Seq<u8>, blob: Seq<u8>) -> bool {
    &&& blob.len() == NONCE_LEN + plaintext.len() + TAG_LEN
    &&& blob.skip(NONCE_LEN as int) == aes256gcm_seal(key, blob.take(NONCE_LEN as int), plaintext)
    &&& aes256gcm_open(key, blob.take(NONCE_LEN as int), blob.skip(NONCE_LEN as int)) == Some(
        plaintext,
    )
}

/// The message of an encryption failure.
pub open spec fn encrypt_error() -> Seq<char> {
    "Ошибка шифрования: "@ + "aead::Error"@
}

/// Encrypts: the result is nonce (12 bytes) || ciphertext || tag, under a
/// fresh random nonce.
pub fn encrypt(key: &CryptoKey, plaintext: &[u8]) -> (r: Result<Vec<u8>, String>)
    ensures
        r is Ok <==> plaintext@.len() <= aes_gcm_p_max(),
        r matches Ok(b) ==> sealed(key.0@, plaintext@, b@),
        r matches Err(m) ==> m@ == encrypt_error(),
{
    let mut nonce = [0u8;NONCE_LEN];
    fill_random(&mut nonce);
    let n = nonce.as_slice();
    match aes_seal(&key.0, n, plaintext) {
        Ok(ct) => {
            let mut out: Vec<u8> = Vec::new();
            let mut i: usize = 0;
            while i < NONCE_LEN
                invariant
                    i <= NONCE_LEN,
                    n@.len() == NONCE_LEN,
                    out@ == n@.subrange(0, i as int),
                decreases NONCE_LEN - i,
            {
                out.push(n[i]);
                i = i + 1;
            }
            let mut j: usize = 0;
            while j < ct.len()
                invariant
                    j <= ct@.len(),
                    n@.len() == NONCE_LEN,
                    out@ == n@ + ct@.subrange(0, j as int),
                decreases ct@.len() - j,
            {
                out.push(ct[j]);
                j = j + 1;
            }
            assert(out@.take(NONCE_LEN as int) =~= n@);
            assert(out@.skip(NONCE_LEN as int) =~= ct@);
            Ok(out)
        },
        Err(e) => {
            let t = aead_error_text(&e);
            Err(owned("Ошибка шифрования: ").concat(t.as_str()))
        },
    }
}

/// The message for a blob too short to hold a nonce and a tag.
pub open spec fn short_blob_error() -> Seq<char> {
    "Повреждённые данные (слишком короткий blob)"@
}

/// The message for a blob that does not authenticate.
pub open spec fn bad_blob_error() -> Seq<char> {
    "Неверный мастер-пароль или повреждённые данные"@
}

/// What `decrypt` gives for a blob.
pub open spec fn decrypt_spec(key: Seq<u8>, blob: Seq<u8>) -> Result<Seq<u8>, Seq<char>> {
    if blob.len() < NONCE_LEN + TAG_LEN {
        Err(short_blob_error())
    } else {
        match aes256gcm_open(key, blob.take(NONCE_LEN as int), blob.skip(NONCE_LEN as int)) {
            Some(p) => Ok(p),
            None => Err(bad_blob_error()),
        }
    }
}

/// Decrypts a blob of the form nonce || ciphertext || tag.
pub fn decrypt(key: &CryptoKey, blob: &[u8]) -> (r: Result<Vec<u8>, String>)
    ensures
        match decrypt_spec(key.0@, blob@) {
            Ok(p) => r is Ok && r->Ok_0@ == p,
            Err(m) => r is Err && r->Err_0@ == m,
        },
{
    if blob.len() < NONCE_LEN + TAG_LEN {
        return Err(owned("Повреждённые данные (слишком короткий blob)"));
    }
    let mut nonce: Vec<u8> = Vec::new();
    let mut ct: Vec<u8> = Vec::new();
    let mut i: usize = 0;
    while i < blob.len()
        invariant
            i <= blob@.len(),
            blob@.len() >= NONCE_LEN,
            i <= NONCE_LEN ==> nonce@ == blob@.subrange(0, i as int) && ct@.len() == 0,
            i > NONCE_LEN ==> nonce@ == blob@.subrange(0, NONCE_LEN as int) && ct@
                == blob@.subrange(NONCE_LEN as int, i as int),
        decreases blob@.len() - i,
    {
        if i < NONCE_LEN {
            nonce.push(blob[i]);
        } else {
            ct.push(blob[i]);
        }
        i = i + 1;
    }
    assert(nonce@ =~= blob@.take(NONCE_LEN as int));
    assert(ct@ =~= blob@.skip(NONCE_LEN as int));
    match aes_open(&key.0, nonce.as_slice(), ct.as_slice()) {
        Ok(p) => Ok(p),
        Err(_) => Err(owned("Неверный мастер-пароль или повреждённые данные")),
    }
}

/// Encrypts a string (its UTF-8 bytes).
pub fn encrypt_str(key: &CryptoKey, s: &str) -> (r: Result<Vec<u8>, String>)
    ensures
        r is Ok <==> encode_utf8(s@).len() <= aes_gcm_p_max(),
        r matches Ok(b) ==> sealed(key.0@, encode_utf8(s@), b@),
        r matches Err(m) ==> m@ == encrypt_error(),
{
    encrypt(key, s.as_bytes())
}

/// The message for a plaintext that is not UTF-8.
pub open spec fn bad_utf8_error() -> Seq<char> {
    "Некорректная кодировка данных"@
}

/// What `decrypt_str` gives for a blob.
pub open spec fn decrypt_str_spec(key: Seq<u8>, blob: Seq<u8>) -> Result<Seq<char>, Seq<char>> {
    match decrypt_spec(key, blob) {
        Ok(p) => if valid_utf8(p) {
            Ok(decode_utf8(p))
        } else {
            Err(bad_utf8_error())
        },
        Err(m) => Err(m),
    }
}

/// Decrypts a string.
pub fn decrypt_str(key: &CryptoKey, blob: &[u8]) -> (r: Result<String, String>)
    ensures
        match decrypt_str_spec(key.0@, blob@) {
            Ok(s) => r is Ok && r->Ok_0@ == s,
            Err(m) => r is Err && r->Err_0@ == m,
        },
{
    let bytes = decrypt(key, blob)?;
    match utf8_string(bytes) {
        Some(s) => Ok(s),
        None => Err(owned("Некорректная кодировка данных")),
    }
}

/// A blob made by `encrypt` decrypts, under the same key, to the plaintext.
pub proof fn lemma_decrypt_encrypted(key: Seq<u8>, plaintext: Seq<u8>, blob: Seq<u8>)
    requires
        sealed(key, plaintext, blob),
    ensures
        decrypt_spec(key, blob) == Ok::<Seq<u8>, Seq<char>>(plaintext),
{
}

/// A blob made by `encrypt_str` decrypts, under the same key, to the string.
pub proof fn lemma_decrypt_str_encrypted(key: Seq<u8>, s: Seq<char>, blob: Seq<u8>)
    requires
        sealed(key, encode_utf8(s), blob),
    ensures
        decrypt_str_spec(key, blob) == Ok::<Seq<char>, Seq<char>>(s),
{
    vstd::utf8::encode_utf8_valid_utf8(s);
    vstd::utf8::encode_utf8_decode_utf8(s);
}

/// A UTF-8 encoding takes at most four bytes per character.
pub proof fn lemma_utf8_len_bound(s: Seq<char>)
    ensures
        encode_utf8(s).len() <= 4 * s.len(),
    decreases s.len(),
{
    if s.len() > 0 {
        lemma_utf8_len_bound(s.drop_first());
        assert(vstd::utf8::encode_scalar(s[0] as u32).len() <= 4);
    }
}

} // verus!
