//! The library's error type.

use vstd::prelude::*;

verus! {

/// Errors raised by the pipeline stages of this library.
#[derive(Debug, Clone, PartialEq, Eq)]
pub enum KreuzbergError {
    /// Invalid input or configuration.
    Validation(String),
    /// OCR could not be carried out.
    Ocr(String),
    /// A plugin could not be registered or run.
    Plugin(String),
}

} // verus!
