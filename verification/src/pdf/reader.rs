//! Reading a document from the bytes of a PDF file.
use crate::pdf::lopdf_api::{
    load_document, parsed_document, pdf_max_id, pdf_objects, pdf_trailer, pdf_version,
};
use lopdf::Document;
use vstd::prelude::*;

verus! {

/// Why no document could be read.
#[derive(Debug, PartialEq, Eq)]
pub enum LoadError {
    /// The bytes are no PDF file that lopdf can read.
    Unreadable,
}

/// Reads the document that the bytes of a PDF file hold: `Ok` with what
/// `parsed_document` gives for them, or `Unreadable` when it gives nothing.
pub fn load_pdf(data: &[u8]) -> (r: Result<Document, LoadError>)
    ensures
        match r {
            Ok(d) => parsed_document(data@) == Some(
                (pdf_objects(d), pdf_trailer(d), pdf_max_id(d), pdf_version(d)),
            ),
            Err(e) => e == LoadError::Unreadable && parsed_document(data@) is None,
        },
{
    match load_document(data) {
        Some(d) => Ok(d),
        None => Err(LoadError::Unreadable),
    }
}

} // verus!
