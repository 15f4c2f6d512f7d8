//! Verified engines for a small symmetric-cipher toolkit: an alphabetic shift
//! cipher with three attack strategies, a one-time pad, an RC4-style stream
//! cipher, and an AES-128 cipher-block-chaining pipeline with PKCS-style
//! padding and a SHA-256-derived key.
//!
//! Every engine is a pure transformation from byte buffers and key material to
//! byte buffers or structured analysis output; reading and writing files is
//! the caller's concern.

pub mod block;
pub mod caesar;
pub mod error;
pub mod otp;
pub mod rc4;
