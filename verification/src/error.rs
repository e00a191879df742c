//! Unified error type.
//!
//! Every operation of the library reports failure as an [`AppError`]. The
//! variants that wrap another crate's error carry that error unchanged.

use vstd::prelude::*;

verus! {

/// `lopdf`'s error, carried inside [`AppError::Pdf`].
#[verifier::external_type_specification]
#[verifier::external_body]
pub struct ExLopdfError(lopdf::Error);

/// The standard I/O error, carried inside [`AppError::Io`].
#[verifier::external_type_specification]
#[verifier::external_body]
pub struct ExIoError(std::io::Error);

/// The `image` crate's error, carried inside [`AppError::Image`].
#[verifier::external_type_specification]
#[verifier::external_body]
pub struct ExImageError(image::ImageError);

#[derive(Debug)]
pub enum AppError {
    NoDocument,
    PageOutOfRange(usize),
    FieldNotFound(String),
    NoAcroForm,
    InvalidInput(String),
    Pdf(lopdf::Error),
    Render(String),
    PdfiumUnavailable(String),
    Print(String),
    Image(image::ImageError),
    Io(std::io::Error),
}

pub type AppResult<T> = Result<T, AppError>;

/// `r` is the invalid-input error with text `message`.
pub open spec fn invalid_input<T>(r: AppResult<T>, message: Seq<char>) -> bool {
    r matches Err(AppError::InvalidInput(text)) && text@ == message
}

/// `r` reports that no field is named `name`.
pub open spec fn field_not_found<T>(r: AppResult<T>, name: Seq<char>) -> bool {
    r matches Err(AppError::FieldNotFound(missing)) && missing@ == name
}

/// `r` is an error `lopdf` reported.
pub open spec fn pdf_error<T>(r: AppResult<T>) -> bool {
    r matches Err(AppError::Pdf(_))
}

} // verus!
