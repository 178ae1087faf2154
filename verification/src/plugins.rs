//! Built-in post-processor registration.

use vstd::prelude::*;
use crate::error::KreuzbergError;

verus! {

/// Register every built-in post-processor enabled by the active feature set.
///
/// This build carries none of the optional post-processors (classification,
/// summarization, translation, captioning, QR codes, NER, redaction), so
/// there is nothing to register and registration always succeeds.
pub fn register_builtin() -> (r: Result<(), KreuzbergError>)
    ensures
        r is Ok,
{
    Ok(())
}

} // verus!
