//! The record table and everything that protects what it holds.

pub mod backup;
pub mod crypt;
pub mod queries;
pub mod text;
