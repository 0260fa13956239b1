//! PDF rewrite passes and the pixel work they need.

pub mod predictor;
pub mod resample;
pub mod object;
pub mod backend;
pub mod names;
pub mod graph;
pub mod images;
pub mod text;
pub mod structure;
pub mod forms;
pub mod fields;
pub mod acroform;
pub mod labels;
pub mod resources;
pub mod attach;

use vstd::prelude::*;
use self::backend::{parsed_pdf, pdf_encrypted, saved_pdf};
use self::images::plan_ok;
use self::structure::{census, census_ok, compress_document, rewrite_ok, rewritten_from, Census};

verus! {

/// Why a document could not be processed.
#[derive(Debug)]
pub enum PdfError {
    /// The document is encrypted; it is not supported.
    Encrypted,
    /// lopdf could not parse the document; its message.
    Invalid(String),
    /// Writing the document failed; the message.
    Other(String),
}

/// What a rewrite did.
pub struct CompressStats {
    pub input_bytes: u64,
    pub output_bytes: u64,
    pub kept_original: bool,
    pub orphans_removed: u32,
    pub images_rewritten: u32,
    pub streams_reflated: u32,
    pub images_deduped: u32,
    pub images_skipped: u32,
    pub notes: Vec<String>,
}

impl CompressStats {
    /// All counts zero, no notes.
    pub fn new() -> (s: Self)
        ensures
            s.input_bytes == 0 && s.output_bytes == 0 && !s.kept_original && s.orphans_removed == 0,
            s.images_rewritten == 0 && s.streams_reflated == 0 && s.images_deduped == 0 && s.images_skipped == 0,
            s.notes@.len() == 0,
    {
        CompressStats {
            input_bytes: 0,
            output_bytes: 0,
            kept_original: false,
            orphans_removed: 0,
            images_rewritten: 0,
            streams_reflated: 0,
            images_deduped: 0,
            images_skipped: 0,
            notes: Vec::new(),
        }
    }
}

/// Count what a document holds: pages, objects, bytes, stream bytes and image streams.
pub fn inspect(bytes: &[u8]) -> (r: Result<Census, PdfError>)
    ensures
        match r {
            Ok(c) => parsed_pdf(bytes@) is Some && !pdf_encrypted(parsed_pdf(bytes@)->0)
                && census_ok(c, parsed_pdf(bytes@)->0, bytes@.len()),
            Err(PdfError::Encrypted) => parsed_pdf(bytes@) is Some && pdf_encrypted(parsed_pdf(bytes@)->0),
            Err(PdfError::Invalid(_)) => parsed_pdf(bytes@) is None,
            Err(PdfError::Other(_)) => false,
        },
{
    census(bytes)
}

/// Shrink a document; never returns more bytes than it was given (see `compress_document`).
pub fn compress<J: Fn(u32, u32, &[u8]) -> Vec<u8>>(bytes: &[u8], encode_jpeg: &J) -> (r: Result<(Vec<u8>, CompressStats), PdfError>)
    requires
        forall|w: u32, h: u32, rgb: &[u8]| encode_jpeg.requires((w, h, rgb)),
    ensures
        self::structure::compress_outcome(*encode_jpeg, bytes@, r),
{
    compress_document(bytes, encode_jpeg)
}

} // verus!
