//! pdfx: shrink PDFs with a DEFLATE and a baseline JPEG encoder of our own,
//! and the checks around them.

pub mod deflate;
pub mod pdf;
pub mod percept;
pub mod jpeg;
pub mod pipeline;

