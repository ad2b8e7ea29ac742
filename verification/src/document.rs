use lopdf::Document;
use vstd::prelude::*;

use crate::load_guard::{loadable, loadable_check};

verus! {

/// A parsed PDF document of the `lopdf` crate, carried through as it is.
#[verifier::external_type_specification]
#[verifier::external_body]
pub struct ExDocument(lopdf::Document);

/// An error of the `lopdf` crate, carried through as it is.
#[verifier::external_type_specification]
#[verifier::external_body]
pub struct ExLopdfError(lopdf::Error);

/// Why a PDF could not be read.
pub enum PdfError {
    /// The bytes fall outside what this library hands to `lopdf` (see
    /// `load_guard::loadable`).
    Unsupported,
    /// The bytes are not a PDF that `lopdf` can parse.
    Load(lopdf::Error),
}

/// Whether `lopdf::Document::load_mem` parses these bytes.
pub uninterp spec fn pdf_parses(data: Seq<u8>) -> bool;

/// Parses a PDF held in memory with `lopdf::Document::load_mem`. Whether
/// it succeeds is named; what the parsed document holds is not stated.
///
/// `load_mem` fails to return on some malformed inputs; `loadable` leaves
/// them out, as reading lopdf 0.32.0's `Reader::read`, its parser and
/// `decode_xref_stream` shows:
/// - the loop over `/Prev` sections (which could cycle) and the reading of
///   object streams (which index decompressed bytes unchecked) are never
///   reached: there is no name `Prev`, `XRefStm` or `ObjStm`;
/// - object ids, offsets, lengths and cross-reference stream indexes come
///   from numbers below 2^31 in a file of at most 512 MiB (and no `Index`
///   entry is negative), so
///   `start + index`, `start + j`, `max_id() + 1`, `start + length` and
///   `input.len() * 2` stay in range;
/// - a cross-reference stream's field widths are at most 255 bytes and not
///   all zero, and its predictor's `Colors`, `BitsPerComponent` and
///   `Columns` are small, so its buffers are small and its loop reads a
///   byte at least per entry;
/// - no stream `Length` is an indirect reference, so reading an object
///   never reads another one (which could recurse without end);
/// - the recursive parser for arrays and dictionaries starts only after
///   a keyword `obj` or `trailer`, and from each of them the nesting stays
///   within `max_nesting()` levels, which the stack holds.
/// Running out of memory while inflating a stream is not left out.
#[verifier::external_body]
fn parse_document(data: &[u8]) -> (r: Result<Document, lopdf::Error>)
    requires
        loadable(data@),
    ensures
        r is Ok == pdf_parses(data@),
{
    Document::load_mem(data)
}

/// Reads a PDF document from its bytes (any PDF version `lopdf` reads),
/// refusing the bytes that `loadable` leaves out.
pub fn load_pdf_from_bytes(data: &[u8]) -> (r: Result<Document, PdfError>)
    ensures
        r is Ok == (loadable(data@) && pdf_parses(data@)),
        r matches Err(PdfError::Unsupported) <==> !loadable(data@),
{
    if !loadable_check(data) {
        return Err(PdfError::Unsupported);
    }
    match parse_document(data) {
        Ok(doc) => Ok(doc),
        Err(e) => Err(PdfError::Load(e)),
    }
}

} // verus!
