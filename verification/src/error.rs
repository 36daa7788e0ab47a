//! The error taxonomy of a fill invocation: the first failure at any stage
//! aborts the whole invocation, and the variant names the stage.

use vstd::prelude::*;

verus! {

/// Why a fill invocation failed.
#[derive(Clone, Copy, Debug, PartialEq, Eq, Structural)]
pub enum TemplateError {
    /// The source buffer is not a readable archive, or its entries are corrupt.
    Format,
    /// A markup entry's bytes are not valid text in the format's encoding.
    Encoding,
    /// Reading the source or writing the destination failed at the storage layer.
    Io,
}

impl TemplateError {
    /// A short description of the failed stage.
    pub fn message(&self) -> (r: &'static str)
        ensures
            self is Format ==> r@ == "invalid template: the archive cannot be read"@,
            self is Encoding ==> r@ == "invalid template: a markup entry is not valid UTF-8"@,
            self is Io ==> r@ == "input or output failed"@,
    {
        match self {
            TemplateError::Format => "invalid template: the archive cannot be read",
            TemplateError::Encoding => "invalid template: a markup entry is not valid UTF-8",
            TemplateError::Io => "input or output failed",
        }
    }
}

} // verus!
