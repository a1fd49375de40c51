//! Witness preparation for credential-based zero-knowledge proofs.
//!
//! The crate converts hexadecimal strings and small integers into canonical
//! prime-field elements, and flattens a structured credential document into
//! the flat witness array that a pre-compiled circuit expects, at the exact
//! indices its ABI layout descriptor dictates.

pub mod artifacts;
pub mod encoder;
pub mod field;
pub mod model;
pub mod witness;
