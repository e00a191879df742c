//! The printing answers of a platform with no backend.
//!
//! Replacing this with a CUPS implementation means mapping the print settings
//! onto IPP attributes: `sides=one-sided|two-sided-long-edge|two-sided-short-edge`,
//! `print-color-mode=color|monochrome`, and `media-source` for the tray. The
//! job itself can be handed to CUPS as a PDF rather than rasterized, which is
//! both simpler and higher quality than the GDI path.

use vstd::prelude::*;
use vstd::string::StringExecFns;

use crate::error::{AppError, AppResult};
use crate::printing::types::PrinterInfo;

verus! {

pub open spec fn unsupported_message() -> Seq<char> {
    "Printing is currently implemented for Windows only. A CUPS backend is needed for macOS and Linux."@
}

/// No printer is the default where nothing can print.
pub fn default_printer_name() -> (r: Option<String>)
    ensures
        r is None,
{
    None
}

/// There are no printers to list where nothing can print.
pub fn list_printers() -> (r: AppResult<Vec<PrinterInfo>>)
    ensures
        r matches Ok(printers) && printers@.len() == 0,
{
    Ok(Vec::new())
}

/// The error querying a printer's capabilities, or printing a document, gives
/// where nothing can print.
pub fn unsupported() -> (r: AppError)
    ensures
        r matches AppError::Print(message) && message@ == unsupported_message(),
{
    AppError::Print(String::from_str(
        "Printing is currently implemented for Windows only. A CUPS backend is needed for macOS and Linux.",
    ))
}

} // verus!
