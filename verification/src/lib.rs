//! Safe, verified core of an IME (Input Method Editor) composition session.
//!
//! The platform reports composition state through a size-probe-then-fill
//! buffer protocol: UTF-16 text, per-unit attribute arrays, and candidate
//! lists laid out as untrusted offset tables inside raw byte buffers. This
//! crate re-exposes that data with UTF-8 byte-offset semantics: every
//! interpretation step (decoding, offset reconciliation, bounds checking)
//! is verified, while the platform calls themselves stay outside.

pub mod buffer;
pub mod candidates;
pub mod clause;
pub mod session;
pub mod utf16;
