//! A certified static-asset store: assets are uploaded in chunked batches,
//! kept in multiple encodings, and served over HTTP together with Merkle
//! proofs against a published root, so a gateway can verify every body it
//! hands to a browser.
//!
//! The store's logic is verified; the host environment (time, caller,
//! certificates) and the cryptographic primitives stand behind explicit,
//! trusted contracts.

pub mod ext;
pub mod http;
pub mod laws;
pub mod range;
pub mod state;
pub mod table;
pub mod tree;
pub mod types;
pub mod url;
