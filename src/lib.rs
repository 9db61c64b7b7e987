//! A buffer-driven TLS 1.3 record layer: record framing, per-epoch record
//! protection with AEAD ciphers, and the key-derivation glue that feeds it.

pub mod aead;
pub mod bytes;
pub mod cipher;
pub mod deframer;
pub mod hkdf;
pub mod message;
pub mod record_layer;
pub mod unbuffered;
