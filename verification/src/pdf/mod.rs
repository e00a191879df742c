//! PDF domain logic.
//!
//! * [`document`] — page-tree inspection and surgery on a `lopdf` document.
//! * [`forms`]    — AcroForm discovery, filling, and field maintenance.
//! * [`edit`]     — the decisions behind editing a run of page text.
//! * [`text`]     — text-string encodings, `/ToUnicode` CMaps and glyph names.

pub mod content;
pub mod document;
pub mod edit;
pub mod fonts;
pub mod forms;
pub mod object;
pub mod text;
pub mod unicode;
