//! Signing and verification of JSON configuration documents.
//!
//! A signed document carries its signature inside itself, in a `_signature`
//! object. The signature covers the canonical form of the whole document, the
//! signature's own metadata included; only the `sig` value is left out.

pub mod base64url;
pub mod canonical;
pub mod crypto;
pub mod document;
pub mod files;
pub mod grammar;
pub mod json;
pub mod keys;
pub mod laws;
pub mod layout;
pub mod operations;
pub mod outline;
pub mod places;
pub mod signing;
pub mod tokens;
