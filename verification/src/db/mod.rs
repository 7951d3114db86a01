pub mod crypto;
pub mod io;
pub mod repository;
pub mod schema;
