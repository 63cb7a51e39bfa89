//! An encrypted, append-and-edit personal log kept in a single file.
//!
//! The file holds a fixed-width header, a CONTENT region of independently
//! encrypted entries, and an encrypted catalog describing where each entry
//! lives.  This crate holds the format and the bookkeeping: it works on
//! an in-memory store and on file images as byte vectors.
pub mod crypto;
pub mod error;
pub mod text;
pub mod metadata;
pub mod layout;
pub mod content;
pub mod header;
pub mod store;
pub mod validate;
pub mod ops;
pub mod laws;
