//! Reconstruction of human-readable logs from a compact binary trace.
//!
//! Embedded firmware records each log call as a timestamp, an argument count
//! and a byte offset into a compiled dictionary of message templates, plus the
//! raw numeric arguments.  This crate decodes the binary record stream,
//! resolves each record against the dictionary, substitutes the arguments into
//! the printf-style template, and groups the resulting lines into per-boot
//! sessions.

pub mod dictionary;
pub mod display;
pub mod format;
pub mod line_decoder;
pub mod num;
pub mod parser;
pub mod records;
pub mod service;
pub mod sessions;
pub mod text;
