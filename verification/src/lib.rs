//! Fills `{placeholder}` tokens inside the XML parts of a zip-packaged
//! word-processing document with caller-supplied values.

pub mod archive;
pub mod engine;
pub mod error;
pub mod find;
pub mod laws;
pub mod locate;
pub mod plan;
pub mod rewrite;
pub mod spans;
pub mod template;
pub mod text;

pub use archive::{build_docx_bytes, fill_entries, ArchiveEntry};
pub use engine::replace_placeholders_in_xml;
pub use error::TemplateError;
pub use template::{save_docx, DocxTemplate};
