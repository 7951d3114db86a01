//! The vault's rules: creating and checking the master-password verifier,
//! changing the master password, and sealing and opening entries. The
//! SQLite storage around them does the reading and writing.

use vstd::prelude::*;
use vstd::utf8::encode_utf8;

use super::crypto::{
    aes_gcm_p_max, argon2_inputs_error, argon2_inputs_valid, argon2_params_error,
    argon2_params_valid, argon2id_output, decrypt, decrypt_spec, decrypt_str, decrypt_str_spec,
    derive_key, derive_key_ok, derive_key_spec, encrypt, encrypt_str, generate_salt, sealed,
    ArgonParams, CryptoKey, SALT_LEN,
};
use super::schema::{verifier_matches, verifier_ok, VERIFIER_PLAINTEXT};
use crate::models::entry::{strings_view, Entry, EntryView};
use crate::text::owned;

verus! {

/// Why a vault could not be opened or changed.
#[derive(Debug)]
pub enum DbError {
    WrongPassword,
    Corrupted(String),
    Io(String),
}

/// The message of an error, as it is shown to the user.
pub open spec fn db_error_text(e: DbError) -> Seq<char> {
    match e {
        DbError::WrongPassword => "Неверный мастер-пароль"@,
        DbError::Corrupted(m) => "Файл базы повреждён: "@ + m@,
        DbError::Io(m) => "Ошибка ввода-вывода: "@ + m@,
    }
}

impl DbError {
    /// The message of the error, as it is shown to the user.
    pub fn message(&self) -> (s: String)
        ensures
            s@ == db_error_text(*self),
    {
        match self {
            DbError::WrongPassword => owned("Неверный мастер-пароль"),
            DbError::Corrupted(m) => owned("Файл базы повреждён: ").concat(m.as_str()),
            DbError::Io(m) => owned("Ошибка ввода-вывода: ").concat(m.as_str()),
        }
    }
}

/// The key that a master password, salt and parameters give.
pub open spec fn password_key(password: Seq<char>, salt: Seq<u8>, params: ArgonParams) -> Seq<u8> {
    argon2id_output(
        encode_utf8(password),
        salt,
        params.memory_kib,
        params.iterations,
        params.parallelism,
    )
}

/// The bytes of the verifier plaintext.
pub open spec fn verifier_bytes() -> Seq<u8> {
    encode_utf8(VERIFIER_PLAINTEXT@)
}

/// A vault's key material: the salt, the key, and the verifier (the verifier
/// plaintext encrypted under the key).
pub struct VaultSecrets {
    pub salt: [u8; SALT_LEN],
    pub key: CryptoKey,
    pub verifier: Vec<u8>,
}

/// The secrets belong together: the key is derived from the password and
/// salt, and the verifier seals the verifier plaintext under the key.
pub open spec fn secrets_for(password: Seq<char>, params: ArgonParams, s: VaultSecrets) -> bool {
    &&& s.key.0@ == password_key(password, s.salt@, params)
    &&& sealed(s.key.0@, verifier_bytes(), s.verifier@)
}

/// Whether a master password can derive a key with these parameters (any
/// 32-byte salt).
pub open spec fn sealable(password: Seq<char>, params: ArgonParams) -> bool {
    argon2_params_valid(params.memory_kib, params.iterations, params.parallelism)
        && argon2_inputs_valid(encode_utf8(password).len(), SALT_LEN as nat)
}

/// The message of a refused sealing (the salt is always 32 bytes long).
pub open spec fn seal_error(password: Seq<char>, params: ArgonParams) -> Seq<char> {
    let (m, t, p) = (params.memory_kib, params.iterations, params.parallelism);
    if !argon2_params_valid(m, t, p) {
        "Некорректные параметры Argon2: "@ + argon2_params_error(m, t, p)
    } else {
        "Ошибка вывода ключа: "@ + argon2_inputs_error(encode_utf8(password).len(), SALT_LEN as nat)
    }
}

/// New key material for a vault: a fresh salt, the key derived from the
/// master password, and the verifier encrypted under it.
pub fn seal_vault(master_password: &str, params: &ArgonParams) -> (r: Result<VaultSecrets, DbError>)
    requires
        params.parallelism <= u32::MAX / 8,
    ensures
        r is Ok <==> sealable(master_password@, *params),
        r matches Ok(s) ==> secrets_for(master_password@, *params, s),
        r is Err ==> r->Err_0 is Corrupted && r->Err_0->Corrupted_0@ == seal_error(master_password@, *params),
{
    let salt = generate_salt();
    let key = match derive_key(master_password, salt.as_slice(), params) {
        Ok(k) => k,
        Err(m) => return Err(DbError::Corrupted(m)),
    };
    proof {
        reveal_strlit("taynik-verifier-v1");
        super::crypto::lemma_utf8_len_bound(VERIFIER_PLAINTEXT@);
    }
    let verifier = match encrypt(&key, VERIFIER_PLAINTEXT.as_bytes()) {
        Ok(v) => v,
        Err(m) => return Err(DbError::Corrupted(m)),
    };
    Ok(VaultSecrets { salt, key, verifier })
}

/// Whether the master password opens the vault: the verifier decrypts under
/// the password's key to the current or the legacy identifier.
pub open spec fn unlocks(password: Seq<char>, salt: Seq<u8>, params: ArgonParams, verifier: Seq<u8>) -> bool {
    match decrypt_spec(password_key(password, salt, params), verifier) {
        Ok(pt) => verifier_ok(pt),
        Err(_) => false,
    }
}

/// Checks the master password against a vault's salt, parameters and
/// verifier, and gives the vault's key when it is right.
pub fn unlock(master_password: &str, salt: &[u8], params: &ArgonParams, verifier: &[u8]) -> (r: Result<CryptoKey, DbError>)
    requires
        params.parallelism <= u32::MAX / 8,
    ensures
        !derive_key_ok(master_password@, salt@, *params) ==> r is Err && r->Err_0 is Corrupted && r->Err_0->Corrupted_0@ == derive_key_spec(master_password@, salt@, *params)->Err_0,
        derive_key_ok(master_password@, salt@, *params) ==> (r is Ok <==> unlocks(master_password@, salt@, *params, verifier@)),
        derive_key_ok(master_password@, salt@, *params) && !unlocks(master_password@, salt@, *params, verifier@) ==> r is Err && r->Err_0 is WrongPassword,
        r matches Ok(k) ==> k.0@ == password_key(master_password@, salt@, *params),
{
    let key = match derive_key(master_password, salt, params) {
        Ok(k) => k,
        Err(m) => return Err(DbError::Corrupted(m)),
    };
    match decrypt(&key, verifier) {
        Ok(pt) => {
            if verifier_matches(pt.as_slice()) {
                Ok(key)
            } else {
                Err(DbError::WrongPassword)
            }
        },
        Err(_) => Err(DbError::WrongPassword),
    }
}

/// Change of master password: the old password is checked, then a new salt,
/// a new key and a new verifier are made under the same parameters.
pub fn rekey(old: &str, new: &str, salt: &[u8], params: &ArgonParams, verifier: &[u8]) -> (r: Result<VaultSecrets, DbError>)
    requires
        params.parallelism <= u32::MAX / 8,
    ensures
        !derive_key_ok(old@, salt@, *params) ==> r is Err && r->Err_0 is Corrupted && r->Err_0->Corrupted_0@ == derive_key_spec(old@, salt@, *params)->Err_0,
        derive_key_ok(old@, salt@, *params) && !unlocks(old@, salt@, *params, verifier@) ==> r is Err && r->Err_0 is WrongPassword,
        derive_key_ok(old@, salt@, *params) && unlocks(old@, salt@, *params, verifier@) ==> (r is Ok <==> sealable(new@, *params)),
        r matches Ok(s) ==> secrets_for(new@, *params, s),
        derive_key_ok(old@, salt@, *params) && unlocks(old@, salt@, *params, verifier@) && r is Err ==> r->Err_0 is Corrupted && r->Err_0->Corrupted_0@ == seal_error(new@, *params),
{
    let _check = unlock(old, salt, params, verifier)?;
    seal_vault(new, params)
}

/// Key material made for a password opens with that password.
pub proof fn lemma_sealed_vault_unlocks(password: Seq<char>, params: ArgonParams, s: VaultSecrets)
    requires
        secrets_for(password, params, s),
    ensures
        unlocks(password, s.salt@, params, s.verifier@),
{
    assert(decrypt_spec(s.key.0@, s.verifier@) == Ok::<Seq<u8>, Seq<char>>(verifier_bytes()));
}

// ---------------------------------------------------------------------------
// Entries
// ---------------------------------------------------------------------------
/// The JSON text (`serde_json::to_string`) of a list of strings.
pub uninterp spec fn json_string_list(v: Seq<Seq<char>>) -> Seq<char>;

/// The list of strings that a JSON text denotes
/// (`serde_json::from_str::<Vec<String>>`), if it denotes one.
pub uninterp spec fn json_parse_string_list(s: Seq<char>) -> Option<Seq<Seq<char>>>;

/// `serde_json::to_string` of a list of strings. It cannot fail here: the
/// writer is a `Vec` and every item is a string. `serde_json::from_str`
/// reads the text back to the same list.
#[verifier::external_body]
fn to_json(v: &Vec<String>) -> (r: String)
    ensures
        r@ == json_string_list(strings_view(v@)),
        json_parse_string_list(r@) == Some(strings_view(v@)),
{
    serde_json::to_string(v).unwrap_or_default()
}

/// `serde_json::from_str::<Vec<String>>`: the list, or `None` when the text
/// is not a JSON array of strings.
#[verifier::external_body]
fn from_json(s: &str) -> (r: Option<Vec<String>>)
    ensures
        match json_parse_string_list(s@) {
            Some(v) => r is Some && strings_view(r->Some_0@) == v,
            None => r is None,
        },
{
    serde_json::from_str::<Vec<String>>(s).ok()
}

/// The encrypted columns of an entry.
pub struct SealedEntry {
    pub title: Vec<u8>,
    pub username: Vec<u8>,
    pub password: Vec<u8>,
    pub url: Vec<u8>,
    pub notes: Vec<u8>,
    pub tags: Vec<u8>,
    pub group: Vec<u8>,
    pub color: Vec<u8>,
    pub totp_secret: Vec<u8>,
    pub favorite: i64,
}

/// A text field encrypted, or empty when encryption failed (a plaintext over
/// the AES-GCM limit).
pub open spec fn sealed_text(key: Seq<u8>, s: Seq<char>, blob: Seq<u8>) -> bool {
    if encode_utf8(s).len() <= aes_gcm_p_max() {
        sealed(key, encode_utf8(s), blob)
    } else {
        blob.len() == 0
    }
}

/// The columns seal the entry: each text field (title, login, password, URL,
/// notes, group, colour, TOTP secret) encrypted, the tags as a JSON list
/// encrypted, the favourite mark as 1 or 0.
pub open spec fn seals_entry(key: Seq<u8>, e: EntryView, s: SealedEntry) -> bool {
    &&& sealed_text(key, e.title, s.title@)
    &&& sealed_text(key, e.username, s.username@)
    &&& sealed_text(key, e.password, s.password@)
    &&& sealed_text(key, e.url, s.url@)
    &&& sealed_text(key, e.notes, s.notes@)
    &&& json_parse_string_list(json_string_list(e.tags)) == Some(e.tags)
    &&& sealed_text(key, json_string_list(e.tags), s.tags@)
    &&& sealed_text(key, e.group, s.group@)
    &&& sealed_text(key, e.color, s.color@)
    &&& sealed_text(key, e.totp_secret, s.totp_secret@)
    &&& s.favorite == (if e.favorite {
        1i64
    } else {
        0i64
    })
}

/// Encrypts a field; a failure gives an empty value.
fn seal_text(key: &CryptoKey, s: &str) -> (b: Vec<u8>)
    ensures
        sealed_text(key.0@, s@, b@),
{
    match encrypt_str(key, s) {
        Ok(b) => b,
        Err(_) => Vec::new(),
    }
}

/// The encrypted columns of an entry.
pub fn seal_entry(key: &CryptoKey, entry: &Entry) -> (s: SealedEntry)
    ensures
        seals_entry(key.0@, entry@, s),
{
    let tags_json = to_json(&entry.tags);
    SealedEntry {
        title: seal_text(key, entry.title.as_str()),
        username: seal_text(key, entry.username.as_str()),
        password: seal_text(key, entry.password.as_str()),
        url: seal_text(key, entry.url.as_str()),
        notes: seal_text(key, entry.notes.as_str()),
        tags: seal_text(key, tags_json.as_str()),
        group: seal_text(key, entry.group.as_str()),
        color: seal_text(key, entry.color.as_str()),
        totp_secret: seal_text(key, entry.totp_secret.as_str()),
        favorite: if entry.favorite {
            1
        } else {
            0
        },
    }
}

/// One row of the entries table, as read.
pub struct StoredEntry {
    pub id: i64,
    pub title: Vec<u8>,
    pub username: Option<Vec<u8>>,
    pub password: Vec<u8>,
    pub url: Option<Vec<u8>>,
    pub notes: Option<Vec<u8>>,
    pub tags: Option<Vec<u8>>,
    pub group: Option<Vec<u8>>,
    pub color: Option<Vec<u8>>,
    pub totp_secret: Option<Vec<u8>>,
    pub favorite: i64,
    pub created_at: i64,
    pub updated_at: i64,
}

/// A field decrypted, or empty when it does not decrypt.
pub open spec fn opened_text(key: Seq<u8>, blob: Seq<u8>) -> Seq<char> {
    match decrypt_str_spec(key, blob) {
        Ok(s) => s,
        Err(_) => Seq::empty(),
    }
}

/// An optional field decrypted, or empty.
pub open spec fn opened_opt(key: Seq<u8>, blob: Option<Vec<u8>>) -> Seq<char> {
    match blob {
        Some(b) => opened_text(key, b@),
        None => Seq::empty(),
    }
}

/// The tags of a row: the column decrypted and read as a JSON list of
/// strings, or no tags when any step fails.
pub open spec fn opened_tags(key: Seq<u8>, blob: Option<Vec<u8>>) -> Seq<Seq<char>> {
    match blob {
        Some(b) => match decrypt_str_spec(key, b@) {
            Ok(s) => match json_parse_string_list(s) {
                Some(v) => v,
                None => Seq::empty(),
            },
            Err(_) => Seq::empty(),
        },
        None => Seq::empty(),
    }
}

/// The entry that a row holds.
pub open spec fn opened_entry(key: Seq<u8>, row: StoredEntry) -> EntryView {
    EntryView {
        id: Some(row.id),
        title: opened_text(key, row.title@),
        username: opened_opt(key, row.username),
        password: opened_text(key, row.password@),
        url: opened_opt(key, row.url),
        notes: opened_opt(key, row.notes),
        tags: opened_tags(key, row.tags),
        group: opened_opt(key, row.group),
        color: opened_opt(key, row.color),
        totp_secret: opened_opt(key, row.totp_secret),
        favorite: row.favorite != 0,
        created_at: row.created_at,
        updated_at: row.updated_at,
    }
}

/// Decrypts a field, empty on failure.
fn open_text(key: &CryptoKey, blob: &Vec<u8>) -> (s: String)
    ensures
        s@ == opened_text(key.0@, blob@),
{
    match decrypt_str(key, blob.as_slice()) {
        Ok(s) => s,
        Err(_) => String::new(),
    }
}

/// Decrypts an optional field, empty when absent or on failure.
fn open_opt(key: &CryptoKey, blob: &Option<Vec<u8>>) -> (s: String)
    ensures
        s@ == opened_opt(key.0@, *blob),
{
    match blob {
        Some(b) => open_text(key, b),
        None => String::new(),
    }
}

/// Decrypts and reads the tags column.
fn open_tags(key: &CryptoKey, blob: &Option<Vec<u8>>) -> (tags: Vec<String>)
    ensures
        strings_view(tags@) == opened_tags(key.0@, *blob),
{
    match blob {
        Some(b) => match decrypt_str(key, b.as_slice()) {
            Ok(s) => match from_json(s.as_str()) {
                Some(v) => v,
                None => {
                    let v: Vec<String> = Vec::new();
                    assert(strings_view(v@) =~= Seq::<Seq<char>>::empty());
                    v
                },
            },
            Err(_) => {
                let v: Vec<String> = Vec::new();
                assert(strings_view(v@) =~= Seq::<Seq<char>>::empty());
                v
            },
        },
        None => {
            let v: Vec<String> = Vec::new();
            assert(strings_view(v@) =~= Seq::<Seq<char>>::empty());
            v
        },
    }
}

/// The decrypted entry of a row.
pub fn open_entry(key: &CryptoKey, row: &StoredEntry) -> (e: Entry)
    ensures
        e@ == opened_entry(key.0@, *row),
{
    Entry {
        id: Some(row.id),
        title: open_text(key, &row.title),
        username: open_opt(key, &row.username),
        password: open_text(key, &row.password),
        url: open_opt(key, &row.url),
        notes: open_opt(key, &row.notes),
        tags: open_tags(key, &row.tags),
        group: open_opt(key, &row.group),
        color: open_opt(key, &row.color),
        totp_secret: open_opt(key, &row.totp_secret),
        favorite: row.favorite != 0,
        created_at: row.created_at,
        updated_at: row.updated_at,
    }
}

/// The row that the storage keeps for sealed columns.
pub open spec fn stored_row(s: SealedEntry, id: i64, created_at: i64, updated_at: i64) -> StoredEntry {
    StoredEntry {
        id,
        title: s.title,
        username: Some(s.username),
        password: s.password,
        url: Some(s.url),
        notes: Some(s.notes),
        tags: Some(s.tags),
        group: Some(s.group),
        color: Some(s.color),
        totp_secret: Some(s.totp_secret),
        favorite: s.favorite,
        created_at,
        updated_at,
    }
}

/// A text field whose plaintext fits AES-GCM reads back as written.
proof fn lemma_text_back(key: Seq<u8>, s: Seq<char>, blob: Seq<u8>)
    requires
        sealed_text(key, s, blob),
        encode_utf8(s).len() <= aes_gcm_p_max(),
    ensures
        opened_text(key, blob) == s,
{
    super::crypto::lemma_decrypt_str_encrypted(key, s, blob);
}

/// An entry saved under a key lists back, under the same key, with all its
/// fields: its id and times are those of the row, everything else is as
/// saved, provided each encrypted field fits AES-GCM.
pub proof fn lemma_entry_lists_back(key: Seq<u8>, e: EntryView, s: SealedEntry, id: i64, created_at: i64, updated_at: i64)
    requires
        seals_entry(key, e, s),
        encode_utf8(e.title).len() <= aes_gcm_p_max(),
        encode_utf8(e.username).len() <= aes_gcm_p_max(),
        encode_utf8(e.password).len() <= aes_gcm_p_max(),
        encode_utf8(e.url).len() <= aes_gcm_p_max(),
        encode_utf8(e.notes).len() <= aes_gcm_p_max(),
        encode_utf8(json_string_list(e.tags)).len() <= aes_gcm_p_max(),
        encode_utf8(e.group).len() <= aes_gcm_p_max(),
        encode_utf8(e.color).len() <= aes_gcm_p_max(),
        encode_utf8(e.totp_secret).len() <= aes_gcm_p_max(),
    ensures
        opened_entry(key, stored_row(s, id, created_at, updated_at)) == (EntryView {
            id: Some(id),
            created_at,
            updated_at,
            ..e
        }),
{
    lemma_text_back(key, e.title, s.title@);
    lemma_text_back(key, e.username, s.username@);
    lemma_text_back(key, e.password, s.password@);
    lemma_text_back(key, e.url, s.url@);
    lemma_text_back(key, e.notes, s.notes@);
    lemma_text_back(key, e.group, s.group@);
    lemma_text_back(key, e.color, s.color@);
    lemma_text_back(key, e.totp_secret, s.totp_secret@);
    super::crypto::lemma_decrypt_str_encrypted(key, json_string_list(e.tags), s.tags@);
}

/// Every encrypted field of the entry fits AES-GCM.
pub open spec fn entry_fits(e: EntryView) -> bool {
    &&& encode_utf8(e.title).len() <= aes_gcm_p_max()
    &&& encode_utf8(e.username).len() <= aes_gcm_p_max()
    &&& encode_utf8(e.password).len() <= aes_gcm_p_max()
    &&& encode_utf8(e.url).len() <= aes_gcm_p_max()
    &&& encode_utf8(e.notes).len() <= aes_gcm_p_max()
    &&& encode_utf8(json_string_list(e.tags)).len() <= aes_gcm_p_max()
    &&& encode_utf8(e.group).len() <= aes_gcm_p_max()
    &&& encode_utf8(e.color).len() <= aes_gcm_p_max()
    &&& encode_utf8(e.totp_secret).len() <= aes_gcm_p_max()
}

/// A stored row sealed again under a new key, for a change of master
/// password: the row opened under the old key, then sealed under the new.
pub fn reseal_entry(old_key: &CryptoKey, new_key: &CryptoKey, row: &StoredEntry) -> (s: SealedEntry)
    ensures
        seals_entry(new_key.0@, opened_entry(old_key.0@, *row), s),
{
    let e = open_entry(old_key, row);
    seal_entry(new_key, &e)
}

/// After a change of master password, a row sealed again under the new key
/// reads back under it as it read under the old key (each field fitting
/// AES-GCM): no entry is lost.
pub proof fn lemma_reseal_reads_back(old_key: Seq<u8>, new_key: Seq<u8>, row: StoredEntry, s: SealedEntry)
    requires
        seals_entry(new_key, opened_entry(old_key, row), s),
        entry_fits(opened_entry(old_key, row)),
    ensures
        opened_entry(new_key, stored_row(s, row.id, row.created_at, row.updated_at)) == opened_entry(
            old_key,
            row,
        ),
{
    lemma_entry_lists_back(new_key, opened_entry(old_key, row), s, row.id, row.created_at, row.updated_at);
}

/// Stamps an entry before it is saved: `updated_at` becomes `now`, and a new
/// entry (no id yet) also gets `created_at = now`.
pub fn stamp_entry(entry: &mut Entry, now: i64)
    ensures
        final(entry).updated_at == now,
        final(entry).created_at == if old(entry).id is None {
            now
        } else {
            old(entry).created_at
        },
        final(entry)@ == (EntryView { updated_at: now, created_at: final(entry).created_at, ..old(entry)@ }),
{
    entry.updated_at = now;
    if entry.id.is_none() {
        entry.created_at = now;
    }
}

/// The file name of a backup: the vault's file stem (`passwords` when it has
/// none), `-backup-`, the time stamp, `.rpwm`.
pub fn backup_file_name(stem: Option<&str>, timestamp: &str) -> (name: String)
    ensures
        name@ == (match stem {
            Some(s) => s@,
            None => "passwords"@,
        }) + "-backup-"@ + timestamp@ + ".rpwm"@,
{
    let base = match stem {
        Some(s) => owned(s),
        None => owned("passwords"),
    };
    base.concat("-backup-").concat(timestamp).concat(".rpwm")
}

} // verus!
