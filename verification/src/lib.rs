//! A non-cryptographic content-fingerprinting library.
//!
//! A fingerprint is computed by folding fixed-size 32-byte blocks of a file's
//! content into a small running accumulator of eight 32-bit lanes, each lane an
//! independent wrapping sum, and rendering the final state as 64 lowercase hex
//! characters.  The library also models the recursive walk of a directory tree
//! that produces one report line per file and one access-denied line per
//! unreachable path.

pub mod accumulator;
pub mod fingerprint;
pub mod hex;
pub mod walk;
