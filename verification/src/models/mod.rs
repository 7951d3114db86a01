pub mod date;
pub mod entry;
pub mod generator;
pub mod totp;
