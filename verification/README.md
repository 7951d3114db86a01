# Тайник

The core of an offline password manager, written in Verus. The functions
under `src/` carry contracts that Verus proves, except the small wrappers
marked `#[verifier::external_body]` around the outside crates and std
(random numbers, the clock, Argon2id, AES-GCM, JSON, string case mapping),
whose contracts are trusted; each names the call it makes.

## Layout

- `src/db/crypto.rs` — Argon2id key derivation and AES-256-GCM field
  encryption (`nonce || ciphertext || tag`), over the `argon2`, `aes-gcm`,
  `rand` and `zeroize` crates.
- `src/db/schema.rs` — the vault's tables and the master-password verifier.
- `src/db/repository.rs` — creating, checking and changing the key material
  of a vault; sealing and opening entries.
- `src/db/io.rs` — the CSV format of entries (RFC 4180).
- `src/models/` — entries, dates, the password generator and strength
  estimate, SHA-1 / HMAC-SHA1 / TOTP and base32.
- `src/order.rs` — lexicographic order and a stable sort of positions.
- `src/ui/` — what the windows decide: the entry list (search, tag and group
  filters, sort order), the entry form, the dialogs, the auto-type sequence
  language and the colour themes.
- `app/` — the I/O around the library: the SQLite vault file, the
  configuration file, CSV files and the auto-type helper programs.
- `tests/` — tests of the library.

The laws of the library are public proof functions next to the functions
they speak of (their names begin with `lemma_`).
