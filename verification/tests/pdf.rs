use lopdf::{Dictionary, Document, Object, ObjectId, Stream};
use pdfx::jpeg::encode::{encode_blocks, sample_blocks, subsample_420, Chroma};
use pdfx::pdf::images::JPEG_QUALITY;
use pdfx::pdf::{compress, inspect, PdfError};
use pdfx::pipeline::{compress_file, inspect_file};
use std::io::Cursor;

// ---- a JPEG encoder for the rewrite, floating point as in the command-line program ----

fn fdct(spatial: &[i32; 64]) -> [i32; 64] {
    let mut cos = [[0.0f32; 8]; 8];
    for k in 0..8 {
        for n in 0..8 {
            let a = if k == 0 { 1.0 / 2.0_f64.sqrt() } else { 1.0 };
            cos[k][n] = (a * ((2.0 * n as f64 + 1.0) * k as f64 * std::f64::consts::PI / 16.0).cos()) as f32;
        }
    }
    let mut tmp = [0.0f32; 64];
    for y in 0..8 {
        for k in 0..8 {
            let mut s = 0.0f32;
            for n in 0..8 {
                s += spatial[y * 8 + n] as f32 * cos[k][n];
            }
            tmp[y * 8 + k] = s;
        }
    }
    let mut out = [0i32; 64];
    for x in 0..8 {
        for k in 0..8 {
            let mut s = 0.0f32;
            for n in 0..8 {
                s += tmp[n * 8 + x] * cos[k][n];
            }
            out[k * 8 + x] = (s * 0.25).round() as i32;
        }
    }
    out
}

fn jpeg(width: u32, height: u32, rgb: &[u8]) -> Vec<u8> {
    let n = width as usize * height as usize;
    let mut ys = vec![0u8; n];
    let mut cb = vec![0u8; n];
    let mut cr = vec![0u8; n];
    for i in 0..n {
        let (r, g, b) = (rgb[i * 3] as f32, rgb[i * 3 + 1] as f32, rgb[i * 3 + 2] as f32);
        ys[i] = (0.299 * r + 0.587 * g + 0.114 * b).round().clamp(0.0, 255.0) as u8;
        cb[i] = (128.0 - 0.168736 * r - 0.331264 * g + 0.5 * b).round().clamp(0.0, 255.0) as u8;
        cr[i] = (128.0 + 0.5 * r - 0.418688 * g - 0.081312 * b).round().clamp(0.0, 255.0) as u8;
    }
    let cbs = subsample_420(&cb, width, height);
    let crs = subsample_420(&cr, width, height);
    let blocks = sample_blocks(width, height, Chroma::Sample420, &ys, &cbs, &crs);
    let coeffs: Vec<[i32; 64]> = blocks.iter().map(fdct).collect();
    encode_blocks(width, height, JPEG_QUALITY, Chroma::Sample420, &coeffs)
}

/// An encoder whose output is never smaller than the input, so only lossless paths win.
fn no_jpeg(_w: u32, _h: u32, rgb: &[u8]) -> Vec<u8> {
    vec![0u8; rgb.len() + 1]
}

// ---- fixtures ----

fn save(doc: &mut Document) -> Vec<u8> {
    let mut out = Vec::new();
    doc.save_to(&mut out).expect("save fixture");
    out
}

fn dict(pairs: Vec<(&str, Object)>) -> Dictionary {
    let mut d = Dictionary::new();
    for (k, v) in pairs {
        d.set(k, v);
    }
    d
}

fn name(s: &str) -> Object {
    Object::Name(s.as_bytes().to_vec())
}

fn finish(doc: &mut Document, pages_id: ObjectId, kids: Vec<Object>) -> Vec<u8> {
    let count = kids.len() as i64;
    doc.objects.insert(
        pages_id,
        Object::Dictionary(dict(vec![("Type", name("Pages")), ("Kids", Object::Array(kids)), ("Count", Object::Integer(count))])),
    );
    let catalog = doc.add_object(dict(vec![("Type", name("Catalog")), ("Pages", Object::Reference(pages_id))]));
    doc.trailer.set("Root", Object::Reference(catalog));
    save(doc)
}

fn font(doc: &mut Document) -> ObjectId {
    doc.add_object(dict(vec![("Type", name("Font")), ("Subtype", name("Type1")), ("BaseFont", name("Helvetica"))]))
}

fn text_page(doc: &mut Document, pages_id: ObjectId, content_id: ObjectId, font_id: ObjectId) -> ObjectId {
    let mut fonts = Dictionary::new();
    fonts.set("F1", Object::Reference(font_id));
    let mut res = Dictionary::new();
    res.set("Font", Object::Dictionary(fonts));
    doc.add_object(dict(vec![
        ("Type", name("Page")),
        ("Parent", Object::Reference(pages_id)),
        ("MediaBox", Object::Array(vec![0.into(), 0.into(), 300.into(), 300.into()])),
        ("Contents", Object::Reference(content_id)),
        ("Resources", Object::Dictionary(res)),
    ]))
}

fn text_with_orphan() -> Vec<u8> {
    let mut doc = Document::with_version("1.4");
    let pages_id = doc.new_object_id();
    let payload = b"BT /F1 12 Tf 20 200 Td (the quick brown fox jumps over the lazy dog) Tj ET".repeat(40);
    let mut stream = Stream::new(Dictionary::new(), payload);
    stream.allows_compression = false;
    let content_id = doc.add_object(stream);
    let font_id = font(&mut doc);
    let page_id = text_page(&mut doc, pages_id, content_id, font_id);
    let _ = doc.add_object(dict(vec![
        ("Type", name("UnusedJunk")),
        ("Blob", name("aaaaaaaaaaaaaaaaaaaaaaaaaaaaaaaa")),
    ]));
    finish(&mut doc, pages_id, vec![page_id.into()])
}

fn rgb_image_pdf(width: u32, height: u32, rgb: Vec<u8>, copies: u32) -> Vec<u8> {
    let mut doc = Document::with_version("1.4");
    let pages_id = doc.new_object_id();
    let mut kids: Vec<Object> = Vec::new();
    for _ in 0..copies {
        let mut img = Stream::new(
            dict(vec![
                ("Type", name("XObject")),
                ("Subtype", name("Image")),
                ("Width", Object::Integer(width as i64)),
                ("Height", Object::Integer(height as i64)),
                ("ColorSpace", name("DeviceRGB")),
                ("BitsPerComponent", Object::Integer(8)),
            ]),
            rgb.clone(),
        );
        img.allows_compression = false;
        let img_id = doc.add_object(img);
        let mut content = Stream::new(Dictionary::new(), format!("q {width} 0 0 {height} 0 0 cm /Im0 Do Q").into_bytes());
        content.allows_compression = false;
        let content_id = doc.add_object(content);
        let mut xobjects = Dictionary::new();
        xobjects.set("Im0", Object::Reference(img_id));
        let mut res = Dictionary::new();
        res.set("XObject", Object::Dictionary(xobjects));
        let page_id = doc.add_object(dict(vec![
            ("Type", name("Page")),
            ("Parent", Object::Reference(pages_id)),
            ("MediaBox", Object::Array(vec![0.into(), 0.into(), (width as i64).into(), (height as i64).into()])),
            ("Contents", Object::Reference(content_id)),
            ("Resources", Object::Dictionary(res)),
        ]));
        kids.push(page_id.into());
    }
    finish(&mut doc, pages_id, kids)
}

fn jpeg_image_pdf(width: u32, height: u32, data: Vec<u8>, copies: u32) -> Vec<u8> {
    let mut doc = Document::with_version("1.4");
    let pages_id = doc.new_object_id();
    let mut kids: Vec<Object> = Vec::new();
    for _ in 0..copies {
        let mut img = Stream::new(
            dict(vec![
                ("Type", name("XObject")),
                ("Subtype", name("Image")),
                ("Width", Object::Integer(width as i64)),
                ("Height", Object::Integer(height as i64)),
                ("ColorSpace", name("DeviceRGB")),
                ("BitsPerComponent", Object::Integer(8)),
                ("Filter", name("DCTDecode")),
            ]),
            data.clone(),
        );
        img.allows_compression = false;
        let img_id = doc.add_object(img);
        let mut xobjects = Dictionary::new();
        xobjects.set("Im0", Object::Reference(img_id));
        let mut res = Dictionary::new();
        res.set("XObject", Object::Dictionary(xobjects));
        let mut content = Stream::new(Dictionary::new(), b"q 8 0 0 8 0 0 cm /Im0 Do Q".to_vec());
        content.allows_compression = false;
        let content_id = doc.add_object(content);
        let page_id = doc.add_object(dict(vec![
            ("Type", name("Page")),
            ("Parent", Object::Reference(pages_id)),
            ("Contents", Object::Reference(content_id)),
            ("Resources", Object::Dictionary(res)),
        ]));
        kids.push(page_id.into());
    }
    finish(&mut doc, pages_id, kids)
}

fn screenshot_rgb(w: u32, h: u32) -> Vec<u8> {
    let mut rgb = vec![0u8; w as usize * h as usize * 3];
    for y in 0..h {
        for x in 0..w {
            let i = ((y * w + x) * 3) as usize;
            if x < w / 2 {
                rgb[i] = 30;
                rgb[i + 1] = 30;
                rgb[i + 2] = 40;
            } else {
                rgb[i] = 240;
                rgb[i + 1] = 240;
                rgb[i + 2] = 245;
            }
            if y % 8 == 0 {
                rgb[i] = 200;
                rgb[i + 1] = 40;
                rgb[i + 2] = 40;
            }
        }
    }
    rgb
}

fn page_with_invalid_flate_content() -> Vec<u8> {
    let mut doc = Document::with_version("1.4");
    let pages_id = doc.new_object_id();
    let ops = b"BT /F1 12 Tf 20 200 Td (visible page operators) Tj ET".repeat(80);
    let mut stream = Stream::new(dict(vec![("Filter", name("FlateDecode"))]), ops.to_vec());
    stream.allows_compression = false;
    let content_id = doc.add_object(stream);
    let font_id = font(&mut doc);
    let page_id = text_page(&mut doc, pages_id, content_id, font_id);
    finish(&mut doc, pages_id, vec![page_id.into()])
}

fn photo_rgb(w: u32, h: u32) -> Vec<u8> {
    let mut rgb = vec![0u8; w as usize * h as usize * 3];
    for y in 0..h {
        for x in 0..w {
            let i = ((y * w + x) * 3) as usize;
            let xf = x as f32 / w as f32;
            let yf = y as f32 / h as f32;
            rgb[i] = (40.0 + 180.0 * xf + 20.0 * (yf * 9.0).sin()) as u8;
            rgb[i + 1] = (30.0 + 160.0 * yf + 15.0 * (xf * 7.0).cos()) as u8;
            rgb[i + 2] = (80.0 + 100.0 * ((xf + yf) * 3.0).sin().abs()) as u8;
        }
    }
    rgb
}

fn minimal_hello() -> Vec<u8> {
    let content = "BT /F1 12 Tf 72 700 Td (xxxxxxxxxxxxxxxxxxxxxxxx) Tj ET\n".repeat(60);
    let content_len = content.len();
    let objects = [
        "1 0 obj\n<< /Type /Catalog /Pages 2 0 R >>\nendobj\n".to_string(),
        "2 0 obj\n<< /Type /Pages /Kids [3 0 R] /Count 1 >>\nendobj\n".to_string(),
        "3 0 obj\n<< /Type /Page /Parent 2 0 R /MediaBox [0 0 612 792] /Contents 4 0 R /Resources << /Font << /F1 5 0 R >> >> >>\nendobj\n".to_string(),
        format!("4 0 obj\n<< /Length {content_len} >>\nstream\n{content}endstream\nendobj\n"),
        "5 0 obj\n<< /Type /Font /Subtype /Type1 /BaseFont /Helvetica >>\nendobj\n".to_string(),
    ];
    let mut body = String::from("%PDF-1.4\n");
    let mut offsets = Vec::new();
    for o in &objects {
        offsets.push(body.len());
        body.push_str(o);
    }
    let xref_at = body.len();
    body.push_str("xref\n0 6\n");
    body.push_str("0000000000 65535 f \n");
    for off in offsets {
        body.push_str(&format!("{off:010} 00000 n \n"));
    }
    body.push_str(&format!("trailer\n<< /Size 6 /Root 1 0 R >>\nstartxref\n{xref_at}\n%%EOF\n"));
    body.into_bytes()
}

fn page_content_bytes(pdf: &[u8]) -> Vec<u8> {
    let doc = Document::load_from(Cursor::new(pdf)).unwrap();
    let pages = doc.get_pages();
    let pid = *pages.values().next().unwrap();
    let Object::Dictionary(page) = doc.get_object(pid).unwrap() else {
        panic!("page dict");
    };
    let Object::Reference(cid) = page.get(b"Contents").unwrap() else {
        panic!("contents ref");
    };
    let Object::Stream(s) = doc.get_object(*cid).unwrap() else {
        panic!("contents stream");
    };
    s.content.clone()
}

// ---- the original's scenarios ----

#[test]
fn inspect_text_pdf() {
    let pdf = text_with_orphan();
    let c = inspect(&pdf).unwrap();
    assert_eq!(c.pages, 1);
    assert!(c.objects >= 4);
}

#[test]
fn compress_text_never_larger_and_reopens() {
    let pdf = text_with_orphan();
    let (out, stats) = compress(&pdf, &jpeg).unwrap();
    assert!(out.len() <= pdf.len());
    assert!(Document::load_from(Cursor::new(&out)).is_ok());
    assert!(stats.orphans_removed >= 1 || out.len() < pdf.len() || stats.kept_original);
}

#[test]
fn compress_screenshot_shrinks() {
    let rgb = screenshot_rgb(64, 64);
    let pdf = rgb_image_pdf(64, 64, rgb, 1);
    let (out, stats) = compress(&pdf, &jpeg).unwrap();
    assert!(out.len() < pdf.len(), "in={} out={}", pdf.len(), out.len());
    assert!(!stats.kept_original);
    Document::load_from(Cursor::new(&out)).unwrap();
}

#[test]
fn compress_photo_shrinks_and_stays_visual() {
    let rgb = photo_rgb(48, 48);
    let pdf = rgb_image_pdf(48, 48, rgb, 1);
    let (out, _stats) = compress(&pdf, &jpeg).unwrap();
    assert!(out.len() <= pdf.len());
    Document::load_from(Cursor::new(&out)).unwrap();
}

#[test]
fn dedup_identical_images() {
    let rgb = screenshot_rgb(32, 32);
    let pdf = rgb_image_pdf(32, 32, rgb, 2);
    let (out, stats) = compress(&pdf, &jpeg).unwrap();
    assert!(out.len() <= pdf.len());
    assert!(stats.images_deduped >= 1 || out.len() < pdf.len());
}

#[test]
fn output_uses_classic_xref_for_preview() {
    let pdf = text_with_orphan();
    let (out, _) = compress(&pdf, &jpeg).unwrap();
    let text = String::from_utf8_lossy(&out);
    assert!(text.contains("\nxref\n"), "classic xref table missing");
    assert!(text.contains("trailer"), "classic trailer missing");
    assert!(!text.contains("/Type /XRef"), "xref stream breaks macOS Preview");
    Document::load_from(Cursor::new(&out)).unwrap();
}

#[test]
fn reflate_must_not_wipe_invalid_flate_page_content() {
    let pdf = page_with_invalid_flate_content();
    let before = page_content_bytes(&pdf);
    assert!(!before.is_empty());
    let (out, _) = compress(&pdf, &jpeg).unwrap();
    let after = page_content_bytes(&out);
    assert!(!after.is_empty(), "reflate wiped page content ({} -> {} bytes)", before.len(), after.len());
    assert!(after.len() >= before.len() / 2, "page content stripped: {} -> {}", before.len(), after.len());
}

#[test]
fn never_emits_larger_file() {
    let pdf = text_with_orphan();
    let (out, stats) = compress(&pdf, &jpeg).unwrap();
    assert!(out.len() as u64 <= stats.input_bytes);
    assert_eq!(out.len() as u64, stats.output_bytes);
}

#[test]
fn cli_types_roundtrip_via_lib() {
    let pdf = minimal_hello();
    let (out, report) = compress_file(&pdf, &jpeg).unwrap();
    assert!(out.len() as u64 <= report.input_bytes);
    let inspect = inspect_file(&out).unwrap();
    assert!(inspect.pages >= 1);
}

// ---- more of the same contracts on concrete files ----

#[test]
fn garbage_is_invalid() {
    assert!(matches!(inspect(b"not a pdf"), Err(PdfError::Invalid(_))));
    assert!(matches!(compress(b"not a pdf", &jpeg), Err(PdfError::Invalid(_))));
    assert!(matches!(compress_file(b"", &jpeg), Err(PdfError::Invalid(_))));
    assert!(matches!(inspect_file(b"%PDF-1.4\n"), Err(PdfError::Invalid(_))));
}

#[test]
fn identical_jpeg_images_are_merged_after_decoding() {
    let rgb = photo_rgb(24, 24);
    let data = jpeg(24, 24, &rgb);
    let pdf = jpeg_image_pdf(24, 24, data, 2);
    let (out, stats) = compress(&pdf, &no_jpeg).unwrap();
    assert_eq!(stats.images_deduped, 1);
    assert_eq!(stats.images_skipped, 0);
    assert!(out.len() < pdf.len());
    assert_eq!(inspect(&out).unwrap().image_streams, 1);
}

#[test]
fn undecodable_jpeg_is_skipped() {
    let pdf = jpeg_image_pdf(24, 24, b"not a jpeg at all".to_vec(), 1);
    let (_, stats) = compress(&pdf, &jpeg).unwrap();
    assert_eq!(stats.images_skipped, 1);
    assert_eq!(stats.images_rewritten, 0);
}

#[test]
fn parse_errors_carry_a_message() {
    match inspect(b"%PDF-1.4\ngarbage") {
        Err(PdfError::Invalid(m)) => assert!(!m.is_empty()),
        _ => panic!("expected an invalid-PDF error"),
    }
}

#[test]
fn encrypted_is_refused() {
    let mut doc = Document::with_version("1.4");
    let pages_id = doc.new_object_id();
    let enc = doc.add_object(dict(vec![
        ("Filter", name("Standard")),
        ("V", Object::Integer(1)),
        ("R", Object::Integer(2)),
        ("O", Object::String(vec![1; 32], lopdf::StringFormat::Literal)),
        ("U", Object::String(vec![2; 32], lopdf::StringFormat::Literal)),
        ("P", Object::Integer(-4)),
    ]));
    doc.trailer.set("Encrypt", Object::Reference(enc));
    let pdf = finish(&mut doc, pages_id, vec![]);
    match inspect(&pdf) {
        Err(PdfError::Encrypted) | Err(PdfError::Invalid(_)) => {}
        other => panic!("expected a refusal, got ok={}", other.is_ok()),
    }
    match compress(&pdf, &jpeg) {
        Err(PdfError::Encrypted) | Err(PdfError::Invalid(_)) => {}
        other => panic!("expected a refusal, got ok={}", other.is_ok()),
    }
}

#[test]
fn kept_original_returns_the_input_bytes() {
    // A document lopdf wrote compactly already; when the rewrite is not smaller the input
    // comes back byte for byte.
    for pdf in [text_with_orphan(), minimal_hello(), rgb_image_pdf(8, 8, screenshot_rgb(8, 8), 1)] {
        let (out, stats) = compress(&pdf, &jpeg).unwrap();
        assert_eq!(stats.input_bytes, pdf.len() as u64);
        assert_eq!(stats.output_bytes, out.len() as u64);
        assert_eq!(stats.notes.len(), 1);
        if stats.kept_original {
            assert_eq!(out, pdf);
            assert_eq!(stats.notes[0], "output not smaller; kept original");
        } else {
            assert!(out.len() < pdf.len());
            assert!(stats.notes[0].starts_with("orphans="));
            Document::load_from(Cursor::new(&out)).unwrap();
        }
    }
}

#[test]
fn orphan_is_pruned() {
    let pdf = text_with_orphan();
    let (out, stats) = compress(&pdf, &jpeg).unwrap();
    assert!(!stats.kept_original);
    assert!(stats.orphans_removed >= 1);
    let text = String::from_utf8_lossy(&out);
    assert!(!text.contains("UnusedJunk"));
    let before = inspect(&pdf).unwrap();
    let after = inspect(&out).unwrap();
    assert_eq!(after.pages, 1);
    assert_eq!(after.objects + stats.orphans_removed, before.objects);
}

#[test]
fn notes_count_the_work() {
    let pdf = text_with_orphan();
    let (_, stats) = compress(&pdf, &jpeg).unwrap();
    assert_eq!(
        stats.notes[0],
        format!(
            "orphans={} reflate={} images={} dedup={} skipped={}",
            stats.orphans_removed, stats.streams_reflated, stats.images_rewritten, stats.images_deduped, stats.images_skipped
        )
    );
    assert!(stats.streams_reflated >= 1);
}

#[test]
fn census_counts_images_and_stream_bytes() {
    let rgb = screenshot_rgb(16, 16);
    let pdf = rgb_image_pdf(16, 16, rgb, 3);
    let c = inspect(&pdf).unwrap();
    assert_eq!(c.pages, 3);
    assert_eq!(c.image_streams, 3);
    assert_eq!(c.bytes, pdf.len() as u64);
    let doc = Document::load_from(Cursor::new(&pdf)).unwrap();
    let mut total = 0u64;
    for o in doc.objects.values() {
        if let Object::Stream(s) = o {
            total += s.content.len() as u64;
        }
    }
    assert_eq!(c.stream_bytes, total);
    assert!(c.stream_bytes >= 3 * 16 * 16 * 3);
    assert_eq!(c.objects as usize, doc.objects.len());
    assert_eq!(c.notes, vec![format!("images: {}  stream_bytes: {}", c.image_streams, c.stream_bytes)]);
}

#[test]
fn duplicates_are_merged_without_jpeg() {
    let rgb = screenshot_rgb(32, 32);
    let pdf = rgb_image_pdf(32, 32, rgb, 3);
    let (out, stats) = compress(&pdf, &no_jpeg).unwrap();
    assert_eq!(stats.images_deduped, 2);
    assert!(out.len() < pdf.len());
    let c = inspect(&out).unwrap();
    assert_eq!(c.pages, 3);
    assert!(c.image_streams <= 1);
}

#[test]
fn report_mirrors_stats() {
    let pdf = text_with_orphan();
    let (out1, stats) = compress(&pdf, &jpeg).unwrap();
    let (out2, report) = compress_file(&pdf, &jpeg).unwrap();
    assert_eq!(out1, out2);
    assert_eq!(report.input_bytes, stats.input_bytes);
    assert_eq!(report.output_bytes, stats.output_bytes);
    assert_eq!(report.kept_original, stats.kept_original);
    assert_eq!(report.notes, stats.notes);
    let c = inspect(&pdf).unwrap();
    let r = inspect_file(&pdf).unwrap();
    assert_eq!((r.pages, r.objects, r.bytes, r.notes.clone()), (c.pages, c.objects, c.bytes, c.notes.clone()));
}

#[test]
fn load_then_save_writes_a_classic_table_and_reopens() {
    let pdf = text_with_orphan();
    let doc = pdfx::pdf::structure::load(&pdf).unwrap();
    let out = pdfx::pdf::structure::save_doc(&doc).unwrap();
    let text = String::from_utf8_lossy(&out);
    assert!(text.contains("\nxref\n"));
    assert!(!text.contains("/Type /XRef"));
    let again = Document::load_from(Cursor::new(&out)).unwrap();
    assert_eq!(again.get_pages().len(), 1);
    assert_eq!(inspect(&out).unwrap().pages, 1);
}

#[test]
fn large_image_without_a_smaller_encoding_is_left_alone() {
    // 100x100 pixels: too many for the lossless fallback, and the encoder never wins.
    let pdf = rgb_image_pdf(100, 100, photo_rgb(100, 100), 1);
    let (_, stats) = compress(&pdf, &no_jpeg).unwrap();
    assert_eq!(stats.images_rewritten, 0);
    let (_, stats) = compress(&pdf, &jpeg).unwrap();
    assert_eq!(stats.images_rewritten, 1);
}
