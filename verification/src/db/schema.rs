//! Database schema. Every sensitive field is stored as an encrypted BLOB.

use vstd::prelude::*;
use vstd::utf8::encode_utf8;

use crate::models::entry::strings_view;
use crate::text::{owned, push_char};

verus! {

/// Version of the schema written into new vaults.
pub const SCHEMA_VERSION: i64 = 1;

/// The plaintext by which the master password is checked.
pub const VERIFIER_PLAINTEXT: &'static str = "taynik-verifier-v1";

/// The verifier identifier of vaults made before the project was renamed,
/// kept XOR-encoded (key 0x5A) so that the former name does not appear in
/// the sources.
pub open spec fn legacy_code() -> Seq<u8> {
    seq![
        0x28u8, 0x3F, 0x3E, 0x2A, 0x3B, 0x29, 0x29, 0x77, 0x2C, 0x3F, 0x28, 0x33, 0x3C, 0x33, 0x3F,
        0x28, 0x77, 0x2C, 0x6B,
    ]
}

/// The legacy verifier text: the code decoded byte by byte.
pub open spec fn legacy_text() -> Seq<char> {
    Seq::new(19, |i: int| ((legacy_code()[i] ^ 0x5Au8) as char))
}

fn legacy_code_bytes() -> (r: [u8; 19])
    ensures
        r@ == legacy_code(),
{
    let r: [u8; 19] = [
        0x28, 0x3F, 0x3E, 0x2A, 0x3B, 0x29, 0x29, 0x77, 0x2C, 0x3F, 0x28, 0x33, 0x3C, 0x33, 0x3F,
        0x28, 0x77, 0x2C, 0x6B,
    ];
    assert(r@ =~= legacy_code());
    r
}

/// The verifier identifier of vaults made before the project was renamed.
pub fn legacy_verifier() -> (s: String)
    ensures
        s@ == legacy_text(),
{
    let code = legacy_code_bytes();
    let mut s = String::new();
    let mut i: usize = 0;
    while i < 19
        invariant
            i <= 19,
            code@ == legacy_code(),
            s@ == legacy_text().subrange(0, i as int),
        decreases 19 - i,
    {
        push_char(&mut s, (code[i] ^ 0x5Au8) as char);
        i = i + 1;
        assert(s@ =~= legacy_text().subrange(0, i as int));
    }
    assert(legacy_text().subrange(0, 19) =~= legacy_text());
    s
}

/// Whether a decrypted verifier is the current or the legacy identifier.
pub open spec fn verifier_ok(pt: Seq<u8>) -> bool {
    pt == encode_utf8(VERIFIER_PLAINTEXT@) || pt == encode_utf8(legacy_text())
}

/// Whether two byte strings are equal.
pub fn bytes_eq(a: &[u8], b: &[u8]) -> (r: bool)
    ensures
        r == (a@ == b@),
{
    if a.len() != b.len() {
        return false;
    }
    let mut i: usize = 0;
    while i < a.len()
        invariant
            a@.len() == b@.len(),
            i <= a@.len(),
            a@.subrange(0, i as int) == b@.subrange(0, i as int),
        decreases a@.len() - i,
    {
        if a[i] != b[i] {
            assert(a@[i as int] != b@[i as int]);
            return false;
        }
        assert(a@.subrange(0, i + 1) == a@.subrange(0, i as int).push(a@[i as int]));
        assert(b@.subrange(0, i + 1) == b@.subrange(0, i as int).push(b@[i as int]));
        i = i + 1;
    }
    assert(a@ == a@.subrange(0, a@.len() as int));
    assert(b@ == b@.subrange(0, b@.len() as int));
    true
}

/// A verifier is correct if it is the current or the legacy identifier
/// (older vaults).
pub fn verifier_matches(pt: &[u8]) -> (r: bool)
    ensures
        r == verifier_ok(pt@),
{
    let legacy = legacy_verifier();
    bytes_eq(pt, VERIFIER_PLAINTEXT.as_bytes()) || bytes_eq(pt, legacy.as_str().as_bytes())
}

/// The tables of a vault.
pub const CREATE_SCHEMA: &'static str = "
CREATE TABLE IF NOT EXISTS meta (
    key TEXT PRIMARY KEY,
    value BLOB NOT NULL
);

CREATE TABLE IF NOT EXISTS entries (
    id INTEGER PRIMARY KEY,
    title BLOB NOT NULL,
    username BLOB,
    password BLOB NOT NULL,
    url BLOB,
    notes BLOB,
    tags BLOB,
    group_name BLOB,
    color BLOB,
    totp_secret BLOB,
    favorite INTEGER NOT NULL DEFAULT 0,
    created_at INTEGER NOT NULL,
    updated_at INTEGER NOT NULL
);
";

/// The columns of `entries` that the schema gained after its first version:
/// a vault made before keeps no group, colour or TOTP secret.
pub open spec fn added_columns() -> Seq<Seq<char>> {
    seq!["group_name"@, "color"@, "totp_secret"@]
}

/// The statement that adds an encrypted column to `entries`.
pub open spec fn add_column_sql(name: Seq<char>) -> Seq<char> {
    "ALTER TABLE entries ADD COLUMN "@ + name + " BLOB"@
}

/// The statements that bring an `entries` table with the columns
/// `existing` up to date: one for each added column that it lacks.
pub open spec fn upgrade_sql(existing: Seq<Seq<char>>) -> Seq<Seq<char>> {
    added_columns().filter(|c: Seq<char>| !existing.contains(c)).map_values(|c: Seq<char>| add_column_sql(c))
}

fn has_column(existing: &Vec<String>, name: &str) -> (r: bool)
    ensures
        r == strings_view(existing@).contains(name@),
{
    let mut k: usize = 0;
    while k < existing.len()
        invariant
            k <= existing@.len(),
            forall|j: int| 0 <= j < k ==> #[trigger] strings_view(existing@)[j] != name@,
        decreases existing@.len() - k,
    {
        if crate::ui::theme::str_is(existing[k].as_str(), name) {
            assert(strings_view(existing@)[k as int] == name@);
            return true;
        }
        k = k + 1;
    }
    false
}

/// The statements that bring an `entries` table with the columns `existing`
/// (as `PRAGMA table_info` lists them) up to date.
pub fn upgrade_statements(existing: &Vec<String>) -> (r: Vec<String>)
    ensures
        strings_view(r@) == upgrade_sql(strings_view(existing@)),
{
    let ghost ev = strings_view(existing@);
    let ghost keep = |c: Seq<char>| !ev.contains(c);
    let mut r: Vec<String> = Vec::new();
    let mut k: usize = 0;
    proof {
        reveal(Seq::filter);
        assert(added_columns().take(0) =~= Seq::<Seq<char>>::empty());
        assert(strings_view(r@) =~= Seq::<Seq<char>>::empty());
    }
    while k < 3
        invariant
            k <= 3,
            ev == strings_view(existing@),
            keep == (|c: Seq<char>| !ev.contains(c)),
            added_columns().len() == 3,
            strings_view(r@) == added_columns().take(k as int).filter(keep).map_values(
                |c: Seq<char>| add_column_sql(c),
            ),
        decreases 3 - k,
    {
        let name = if k == 0 {
            "group_name"
        } else if k == 1 {
            "color"
        } else {
            "totp_secret"
        };
        assert(name@ == added_columns()[k as int]);
        let ghost r0 = strings_view(r@);
        proof {
            reveal(Seq::filter);
            assert(added_columns().take(k + 1).drop_last() =~= added_columns().take(k as int));
            assert(added_columns().take(k + 1).last() == name@);
        }
        if !has_column(existing, name) {
            let sql = owned("ALTER TABLE entries ADD COLUMN ").concat(name).concat(" BLOB");
            r.push(sql);
            assert(strings_view(r@) =~= r0.push(add_column_sql(name@)));
            assert(added_columns().take(k + 1).filter(keep) == added_columns().take(k as int).filter(keep).push(
                name@,
            ));
            assert(added_columns().take(k + 1).filter(keep).map_values(|c: Seq<char>| add_column_sql(c))
                =~= added_columns().take(k as int).filter(keep).map_values(|c: Seq<char>| add_column_sql(c)).push(
                add_column_sql(name@),
            ));
        } else {
            assert(added_columns().take(k + 1).filter(keep) == added_columns().take(k as int).filter(keep));
        }
        k = k + 1;
    }
    assert(added_columns().take(3) =~= added_columns());
    r
}

} // verus!
