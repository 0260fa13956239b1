//! The library's two entry points over whole files: compress with the never-larger guard,
//! and inspect.

use vstd::prelude::*;
use crate::pdf::backend::{parsed_pdf, pdf_encrypted, saved_pdf};
use crate::pdf::images::plan_ok;
use crate::pdf::object::{DocView, ObjId};
use crate::pdf::structure::{census_ok, rewrite_ok, rewritten_from, compress_outcome, Census};
use crate::pdf::{compress, inspect, CompressStats, PdfError};

verus! {

/// What a compression run reports.
pub struct CompressReport {
    pub input_bytes: u64,
    pub output_bytes: u64,
    pub kept_original: bool,
    pub notes: Vec<String>,
}

/// What an inspection reports.
pub struct InspectReport {
    pub pages: u32,
    pub objects: u32,
    pub bytes: u64,
    pub notes: Vec<String>,
}

/// The report made from the statistics of a rewrite.
pub open spec fn compress_report_of(st: CompressStats) -> CompressReport {
    CompressReport {
        input_bytes: st.input_bytes,
        output_bytes: st.output_bytes,
        kept_original: st.kept_original,
        notes: st.notes,
    }
}

/// The result of a compression run with its statistics turned into a report.
pub open spec fn with_report(r: Result<(Vec<u8>, CompressStats), PdfError>) -> Result<(Vec<u8>, CompressReport), PdfError> {
    match r {
        Ok((out, st)) => Ok((out, compress_report_of(st))),
        Err(e) => Err(e),
    }
}

/// The report made from a census.
pub open spec fn inspect_report_of(c: Census) -> InspectReport {
    InspectReport { pages: c.pages, objects: c.objects, bytes: c.bytes, notes: c.notes }
}

/// Compress a whole file. The output is never longer than the input: either the input itself
/// (`kept_original`) or a shorter document written by lopdf.
pub fn compress_file<J: Fn(u32, u32, &[u8]) -> Vec<u8>>(input: &[u8], encode_jpeg: &J) -> (r: Result<(Vec<u8>, CompressReport), PdfError>)
    requires
        forall|w: u32, h: u32, rgb: &[u8]| encode_jpeg.requires((w, h, rgb)),
    ensures
        exists|c: Result<(Vec<u8>, CompressStats), PdfError>| compress_outcome(*encode_jpeg, input@, c) && r == with_report(c),
        match r {
            Ok((out, rep)) => {
                &&& parsed_pdf(input@) is Some && !pdf_encrypted(parsed_pdf(input@)->0)
                &&& out@.len() <= input@.len()
                &&& rep.input_bytes == input@.len() && rep.output_bytes == out@.len()
                &&& exists|st: CompressStats| rewrite_ok(input@, out@, st) && rep == compress_report_of(st)
                &&& !rep.kept_original ==> exists|w: DocView, plan: Seq<(ObjId, ObjId)>|
                    saved_pdf(w) == Some(out@) && plan_ok(parsed_pdf(input@)->0.objects, plan)
                    && rewritten_from(*encode_jpeg, parsed_pdf(input@)->0, w, plan)
            },
            Err(PdfError::Encrypted) => parsed_pdf(input@) is Some && pdf_encrypted(parsed_pdf(input@)->0),
            Err(PdfError::Invalid(_)) => parsed_pdf(input@) is None,
            Err(PdfError::Other(_)) => parsed_pdf(input@) is Some && !pdf_encrypted(parsed_pdf(input@)->0),
        },
{
    let res = compress(input, encode_jpeg);
    let ghost c = res;
    match res {
        Ok((out, stats)) => {
            let ghost st = stats;
            let rep = CompressReport {
                input_bytes: stats.input_bytes,
                output_bytes: stats.output_bytes,
                kept_original: stats.kept_original,
                notes: stats.notes,
            };
            proof {
                assert(rewrite_ok(input@, out@, st) && rep == compress_report_of(st));
                let (w, plan) = choose|w: DocView, plan: Seq<(ObjId, ObjId)>|
                    crate::pdf::structure::rewrite_decided(*encode_jpeg, input@, out@, st, parsed_pdf(input@)->0, w, plan);
                assert(crate::pdf::structure::rewrite_decided(*encode_jpeg, input@, out@, st, parsed_pdf(input@)->0, w, plan));
            }
            let r = Ok((out, rep));
            proof {
                assert(r == with_report(c));
            }
            r
        },
        Err(e) => Err(e),
    }
}

/// Inspect a whole file: pages, objects, size, and a note on streams and images.
pub fn inspect_file(input: &[u8]) -> (r: Result<InspectReport, PdfError>)
    ensures
        match r {
            Ok(rep) => {
                &&& parsed_pdf(input@) is Some && !pdf_encrypted(parsed_pdf(input@)->0)
                &&& exists|c: Census| census_ok(c, parsed_pdf(input@)->0, input@.len()) && rep == inspect_report_of(c)
            },
            Err(PdfError::Encrypted) => parsed_pdf(input@) is Some && pdf_encrypted(parsed_pdf(input@)->0),
            Err(PdfError::Invalid(_)) => parsed_pdf(input@) is None,
            Err(PdfError::Other(_)) => false,
        },
{
    match inspect(input) {
        Ok(c) => {
            let ghost g = c;
            let rep = InspectReport { pages: c.pages, objects: c.objects, bytes: c.bytes, notes: c.notes };
            proof {
                assert(census_ok(g, parsed_pdf(input@)->0, input@.len()) && rep == inspect_report_of(g));
            }
            Ok(rep)
        },
        Err(e) => Err(e),
    }
}

} // verus!
