//! NXTPDF's document core: tabs and edit history, page-tree operations,
//! AcroForm editing, text-string encodings and the printing vocabulary.

pub mod decimal;
pub mod error;
pub mod pdf;
pub mod printing;
pub mod request;
pub mod state;
