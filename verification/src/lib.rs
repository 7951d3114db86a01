//! Тайник: the verified core of an offline password manager.
//!
//! The library holds the logic of the vault: key derivation and field
//! encryption, the master-password verifier, the CSV format, the password
//! generator and strength estimate, TOTP codes, the auto-type sequence
//! language and the colour themes.

pub mod config;
pub mod db;
pub mod models;
pub mod order;
pub mod text;
pub mod ui;
