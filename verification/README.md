# pdfx

A PDF shrinker whose logic is proved with Verus.

- `src/deflate/`: zlib/DEFLATE writer (LZ77 parse, length-limited Huffman codes,
  bit writer, Adler-32).
- `src/jpeg/`: baseline JPEG pieces (quantisation tables, block sampling, 4:2:0
  subsampling, entropy coding and file layout).
- `src/pdf/`: the document model, reachability, image recompression and
  de-duplication, PNG/TIFF predictors, resampling, the rewrite of the document,
  and the form pass's document side (label clean-up, field naming, named XObject
  resources, widget annotations and AcroForm upkeep). lopdf parses and writes the
  file; zune-jpeg decodes DCT images. Both are reached only through the trusted
  items in `src/pdf/backend.rs`.
- `src/percept.rs`: image classification and the visually-lossless gate.
- `src/pipeline.rs`: the two entry points, compress and inspect.
- `app/`: the command line, the floating-point colour transform and DCT, SSIM,
  and the page geometry used to place form fields.

lopdf is built without its default features (no parallel loading) and zune-jpeg without
its SIMD features, so what they give depends on the input bytes alone, as the contracts
of the trusted items in `src/pdf/backend.rs` say.
