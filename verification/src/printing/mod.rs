//! Printing.
//!
//! [`types`] is platform-neutral vocabulary. [`windows`] holds the pieces of
//! the Windows (GDI) backend that are plain computation: status text, wide
//! string buffers and pixel order. [`unsupported`] answers for platforms that
//! have no backend.

pub mod types;
pub mod unsupported;
pub mod windows;
