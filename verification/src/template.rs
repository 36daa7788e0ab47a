//! The capability a fillable template offers: a source buffer and an ordered
//! list of token-to-value bindings.

use vstd::prelude::*;
use crate::archive::{archive_parse, build_docx_bytes};
use crate::error::TemplateError;

verus! {

/// Anything that exposes a packaged-document source and an ordered list of
/// `(token, value)` pairs can be filled by the engine. Tokens are literal
/// substrings including their delimiters, so `"{Name}"` and `"{ Name }"` are
/// distinct tokens.
pub trait DocxTemplate {
    /// The bytes of the packaged template document.
    fn template_source(&self) -> Vec<u8>;

    /// The substitution pairs, in the order they are to be scanned.
    fn replacements(&self) -> Vec<(String, String)>;
}

/// Fills the template's source with its bindings and returns the bytes of
/// the filled package, ready for the caller to write to its destination.
/// Whatever the template's methods hand back, a successful result is a
/// readable archive.
pub fn save_docx<T: DocxTemplate>(template: &T) -> (r: Result<Vec<u8>, TemplateError>)
    ensures
        r matches Ok(out) ==> archive_parse(out@) is Some,
{
    let source = template.template_source();
    let replacements = template.replacements();
    build_docx_bytes(source.as_slice(), &replacements)
}

} // verus!
