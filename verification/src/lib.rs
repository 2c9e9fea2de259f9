//! Content-addressed storage of self-describing envelopes.
//!
//! An envelope carries a type reference, typed relationships to other
//! envelopes, index fields, an optional link to an earlier version and an
//! opaque payload. Its identity is the SHA-256 digest of its canonical
//! encoding, so equal content is stored once and found again by digest.
//!
//! - [`hash`]: digests, SHA-256 and the hex form.
//! - [`envelope`]: the envelope model and its builder.
//! - [`canonical`], [`encoding`], [`decoding`]: the canonical order and the
//!   binary layout, written and read.
//! - [`laws`]: what encoding and decoding guarantee together.
//! - [`store`]: the store of encodings by digest.
//! - [`index`], [`relation`]: lookups by type, field and relationship, and
//!   the store that keeps them.
//! - [`wire`]: integers, text and byte order in the layout.
//! - [`error`]: the failures reported.

pub mod canonical;
pub mod decoding;
pub mod encoding;
pub mod envelope;
pub mod error;
pub mod hash;
pub mod index;
pub mod laws;
pub mod relation;
pub mod store;
pub mod wire;

pub use crate::envelope::{Envelope, EnvelopeBuilder, IndexValue, Relationship};
pub use crate::error::Error;
pub use crate::hash::Hash256;
pub use crate::index::{Index, IndexedStore};
pub use crate::store::Store;
