//! Encrypted per-record storage of journal entries: the record model, its
//! canonical text form, the on-disk envelope, the sealing protocol and the
//! query rules over a directory of envelopes.

pub mod codec;
pub mod crypto;
pub mod envelope;
pub mod export;
pub mod record;
pub mod service;
pub mod text;
pub mod types;
