//! Encrypted credential store.
//!
//! Every secret is kept only as an authenticated ciphertext whose key is
//! stretched from a password and a per-message random value. The crate
//! holds the cipher layer, the record table, the backup format and the
//! decisions behind the command-line front end, each with a contract
//! that Verus proves.

pub mod cli;
pub mod database;
pub mod generate;
