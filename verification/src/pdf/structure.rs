//! Whole-document passes: loading, the census, orphan removal, re-deflating streams,
//! and the rewrite that never hands back a larger file.

use vstd::prelude::*;
use std::collections::HashSet;
use super::object::{PdfObject, PdfDict, PdfStream, PdfDoc, ObjId, ObjView, obj_view, dview, objects_view,
    list_view, dict_get, dict_set, dict_remove, dict_value, dict_set_spec, dict_remove_spec, doc_view, stream_view,
    lemma_list_view, lemma_objects_view, copy_bytes, id_lt};
use super::graph::{view_ids_sorted, reachable_ids, keep_objects, live_from_roots, id_key};
use super::images::{is_image, is_image_spec, is_image_entries, process_images, ImageStats, view_ids, is_name,
    plan_ok, images_pass_ok, remapped, dedup_spec, image_ids, image_keys, dropped, DecodedImage};
use super::backend::{parse_pdf, is_encrypted, page_count, prune_objects, save_pdf, decompressed_content,
    error_text, io_error_text, parsed_pdf, pdf_encrypted, pdf_page_count, saved_pdf, decoded_stream, pruned_doc, live_ids};
use super::names::{FILTER, FLATE_DECODE, LENGTH, DECODE_PARMS, LZWDECODE, ASCII85_DECODE, ASCIIHEX_DECODE,
    DCTDECODE, JPXDECODE, JBIG2_DECODE, CCITTFAX_DECODE};
use super::text::{decimal, decimal_spec, concat, ascii_string, ascii_chars, NOTE_CENSUS_IMAGES, NOTE_CENSUS_STREAM_BYTES,
    NOTE_KEPT_ORIGINAL, NOTE_ORPHANS, NOTE_REFLATE, NOTE_IMAGES, NOTE_DEDUP, NOTE_SKIPPED};
use super::{PdfError, CompressStats};
use crate::deflate::{compress, zlib_of};

verus! {

/// What a document holds.
pub struct Census {
    pub pages: u32,
    pub objects: u32,
    pub bytes: u64,
    pub stream_bytes: u64,
    pub image_streams: u32,
    pub notes: Vec<String>,
}

/// Names of filters whose data re-deflating can shrink.
pub open spec fn recodable_filter(n: Seq<u8>) -> bool {
    n == LZWDECODE@ || n == ASCII85_DECODE@ || n == ASCIIHEX_DECODE@
}

/// Names of filters for image codecs that re-deflating must not touch.
pub open spec fn image_codec(n: Seq<u8>) -> bool {
    n == DCTDECODE@ || n == JPXDECODE@ || n == JBIG2_DECODE@ || n == CCITTFAX_DECODE@
}

/// Names in a filter chain that keep a stream as it is: the image codecs, and `FlateDecode`
/// (content that is already Flate stays put).
pub open spec fn kept_filter(n: Seq<u8>) -> bool {
    image_codec(n) || n == FLATE_DECODE@
}

/// A stream may be re-deflated: no filter, one recodable filter, or a filter chain
/// with neither an image codec nor `FlateDecode`.
pub open spec fn flate_eligible_spec(d: PdfDict) -> bool {
    match dict_value(d, FILTER@) {
        None => true,
        Some(ObjView::Name(n)) => recodable_filter(n),
        Some(ObjView::Array(a)) => forall|i: int| 0 <= i < a.len() ==> !(#[trigger] a[i] matches ObjView::Name(n) && kept_filter(n)),
        _ => false,
    }
}

fn is_recodable(n: &[u8]) -> (r: bool)
    ensures
        r == recodable_filter(n@),
{
    super::images::bytes_equal(n, &LZWDECODE) || super::images::bytes_equal(n, &ASCII85_DECODE)
        || super::images::bytes_equal(n, &ASCIIHEX_DECODE)
}

fn is_image_codec(n: &[u8]) -> (r: bool)
    ensures
        r == image_codec(n@),
{
    super::images::bytes_equal(n, &DCTDECODE) || super::images::bytes_equal(n, &JPXDECODE)
        || super::images::bytes_equal(n, &JBIG2_DECODE) || super::images::bytes_equal(n, &CCITTFAX_DECODE)
}

/// Whether a stream's filters allow re-deflating it.
pub fn flate_eligible(dict: &PdfDict) -> (r: bool)
    ensures
        r == flate_eligible_spec(*dict),
{
    match dict_get(dict, &FILTER) {
        None => true,
        Some(PdfObject::Name(n)) => is_recodable(n.as_slice()),
        Some(PdfObject::Array(a)) => {
            let ghost lv = list_view(a@);
            proof {
                lemma_list_view(a@);
            }
            let mut i: usize = 0;
            while i < a.len()
                invariant
                    i <= a.len(),
                    lv == list_view(a@),
                    lv.len() == a@.len(),
                    dict_value(*dict, FILTER@) == Some(ObjView::Array(lv)),
                    forall|j: int| 0 <= j < a@.len() ==> #[trigger] lv[j] == obj_view(a@[j]),
                    forall|j: int| 0 <= j < i ==> !(#[trigger] lv[j] matches ObjView::Name(n) && kept_filter(n)),
                decreases a.len() - i,
            {
                match &a[i] {
                    PdfObject::Name(n) => {
                        if is_image_codec(n.as_slice()) || super::images::bytes_equal(n.as_slice(), &FLATE_DECODE) {
                            proof {
                                assert(lv[i as int] matches ObjView::Name(m) && kept_filter(m));
                            }
                            return false;
                        }
                    },
                    _ => {},
                }
                i = i + 1;
            }
            true
        },
        _ => false,
    }
}

/// Dictionary of a re-deflated stream: `/Filter /FlateDecode`, the new `/Length`, no
/// `/DecodeParms`.
pub open spec fn reflate_dict_spec(old: Seq<(Seq<u8>, ObjView)>, len: nat) -> Seq<(Seq<u8>, ObjView)> {
    let d1 = dict_set_spec(old, FILTER@, ObjView::Name(FLATE_DECODE@));
    let d2 = dict_set_spec(d1, LENGTH@, ObjView::Integer(len as i64));
    dict_remove_spec(d2, DECODE_PARMS@)
}

/// Whether re-deflating considers the stream: not an image, filters that allow it, and
/// decoded bytes that are not empty, not under 16 bytes for a stream over 64 bytes, and
/// shorter than 2^31 - 1.
pub open spec fn reflatable(s: PdfStream) -> bool {
    &&& !is_image_spec(s.dict)
    &&& flate_eligible_spec(s.dict)
    &&& decoded_stream(stream_view(s)) is Some
    &&& {
        let raw = decoded_stream(stream_view(s))->0;
        &&& raw.len() > 0
        &&& !(s.content@.len() > 64 && raw.len() < 16)
        &&& raw.len() < 0x7fff_ffff
    }
}

/// `new` is the stream `s` with its content replaced by `c`, a zlib stream of its decoded
/// bytes shorter than the old content.
pub open spec fn reflated_to(s: PdfStream, new: ObjView) -> bool {
    let raw = decoded_stream(stream_view(s))->0;
    new matches ObjView::Stream(e, c, a, p) && {
        &&& zlib_of(c, raw)
        &&& c.len() < s.content@.len()
        &&& e == reflate_dict_spec(dview(s.dict), c.len())
        &&& !a
        &&& p == s.start_position
    }
}

/// What re-deflating does to one object: a stream it considers (`reflatable`) gets a zlib
/// stream of its decoded bytes when that is shorter than its content, and stays when the
/// zlib stream made is not shorter; every other object stays.
pub open spec fn reflate_step(old: PdfObject, new: ObjView) -> bool {
    match old {
        PdfObject::Stream(s) => if reflatable(s) {
            reflated_to(s, new) || (new == obj_view(old) && exists|c: Seq<u8>|
                zlib_of(c, decoded_stream(stream_view(s))->0) && c.len() >= s.content@.len())
        } else {
            new == obj_view(old)
        },
        _ => new == obj_view(old),
    }
}

/// How many of the first `k` objects differ in value between `a` and `b`.
pub open spec fn changed_count(a: Seq<(ObjId, PdfObject)>, b: Seq<(ObjId, PdfObject)>, k: int) -> nat
    decreases k,
{
    if k <= 0 {
        0
    } else {
        changed_count(a, b, k - 1) + if obj_view(a[k - 1].1) != obj_view(b[k - 1].1) { 1nat } else { 0nat }
    }
}

proof fn lemma_changed_prefix(a: Seq<(ObjId, PdfObject)>, b: Seq<(ObjId, PdfObject)>, c: Seq<(ObjId, PdfObject)>, k: int)
    requires
        forall|j: int| 0 <= j < k ==> b[j] == c[j],
    ensures
        changed_count(a, b, k) == changed_count(a, c, k),
    decreases k,
{
    if k > 0 {
        lemma_changed_prefix(a, b, c, k - 1);
    }
}

/// Re-deflate the streams whose filters allow it when that makes them smaller; returns how
/// many were replaced (as a wrapping count).
pub fn reflate_streams(objects: &mut Vec<(ObjId, PdfObject)>) -> (n: u32)
    ensures
        final(objects)@.len() == old(objects)@.len(),
        forall|i: int| 0 <= i < old(objects)@.len() ==> (#[trigger] final(objects)@[i]).0 == old(objects)@[i].0
            && reflate_step(old(objects)@[i].1, obj_view(final(objects)@[i].1)),
        n as int == changed_count(old(objects)@, final(objects)@, old(objects)@.len() as int) % 0x1_0000_0000,
{
    let ghost orig = objects@;
    let mut n: u32 = 0;
    let mut i: usize = 0;
    while i < objects.len()
        invariant
            i <= objects.len(),
            objects@.len() == orig.len(),
            forall|j: int| 0 <= j < orig.len() ==> (#[trigger] objects@[j]).0 == orig[j].0,
            forall|j: int| 0 <= j < i ==> reflate_step(orig[j].1, obj_view(#[trigger] objects@[j].1)),
            forall|j: int| i <= j < orig.len() ==> #[trigger] objects@[j] == orig[j],
            n as int == changed_count(orig, objects@, i as int) % 0x1_0000_0000,
        decreases objects.len() - i,
    {
        let ghost pre = objects@;
        let replacement: Option<PdfStream> = match &objects[i].1 {
            PdfObject::Stream(stream) => {
                if is_image(&stream.dict) || !flate_eligible(&stream.dict) {
                    None
                } else {
                    match decompressed_content(stream) {
                        Err(_) => None,
                        Ok(raw) => {
                            if raw.len() == 0 || (stream.content.len() > 64 && raw.len() < 16) || raw.len() >= 0x7fff_ffff {
                                None
                            } else {
                                let compressed = compress(raw.as_slice());
                                if compressed.len() >= stream.content.len() {
                                    proof {
                                        assert(zlib_of(compressed@, decoded_stream(stream_view(*stream))->0)
                                            && compressed@.len() >= stream.content@.len());
                                    }
                                    None
                                } else {
                                    let mut dict = super::object::copy_dict(&stream.dict);
                                    dict_set(&mut dict, &FILTER, PdfObject::Name(copy_bytes(&FLATE_DECODE)));
                                    dict_set(&mut dict, &LENGTH, PdfObject::Integer(compressed.len() as i64));
                                    dict_remove(&mut dict, &DECODE_PARMS);
                                    Some(PdfStream {
                                        dict,
                                        content: compressed,
                                        allows_compression: false,
                                        start_position: stream.start_position,
                                    })
                                }
                            }
                        },
                    }
                }
            },
            _ => None,
        };
        match replacement {
            Some(s) => {
                let id = objects[i].0;
                proof {
                    assert(s.content@.len() < orig[i as int].1->Stream_0.content@.len());
                }
                objects.set(i, (id, PdfObject::Stream(s)));
                proof {
                    lemma_changed_prefix(orig, pre, objects@, i as int);
                    assert(obj_view(objects@[i as int].1) != obj_view(orig[i as int].1));
                }
                n = n.wrapping_add(1);
            },
            None => {
                proof {
                    assert(objects@[i as int] == orig[i as int]);
                }
            },
        }
        i = i + 1;
    }
    n
}

/// Load a document: lopdf's parse, refused when encrypted.
pub fn load(bytes: &[u8]) -> (r: Result<PdfDoc, PdfError>)
    ensures
        match r {
            Ok(d) => parsed_pdf(bytes@) == Some(doc_view(d)) && !pdf_encrypted(doc_view(d))
                && view_ids_sorted(objects_view(d.objects@)) && super::object::doc_keys_distinct(doc_view(d)),
            Err(PdfError::Encrypted) => parsed_pdf(bytes@) is Some && pdf_encrypted(parsed_pdf(bytes@)->0),
            Err(PdfError::Invalid(_)) => parsed_pdf(bytes@) is None,
            Err(PdfError::Other(_)) => false,
        },
{
    match parse_pdf(bytes) {
        Err(e) => Err(PdfError::Invalid(error_text(&e))),
        Ok(doc) => {
            if is_encrypted(&doc) {
                Err(PdfError::Encrypted)
            } else {
                Ok(doc)
            }
        },
    }
}

/// Write a document: lopdf renumbers its objects and saves it with a classic
/// cross-reference table (named by `saved_pdf`); a write error becomes `Other`.
pub fn save_doc(doc: &PdfDoc) -> (r: Result<Vec<u8>, PdfError>)
    ensures
        match r {
            Ok(out) => saved_pdf(doc_view(*doc)) == Some(out@),
            Err(PdfError::Other(_)) => saved_pdf(doc_view(*doc)) is None,
            Err(_) => false,
        },
{
    match save_pdf(doc) {
        Ok(out) => Ok(out),
        Err(e) => Err(PdfError::Other(io_error_text(&e))),
    }
}

/// Total content bytes of the streams among the objects.
pub open spec fn stream_bytes_total(ov: Seq<(ObjId, ObjView)>) -> nat
    decreases ov.len(),
{
    if ov.len() == 0 {
        0
    } else {
        stream_bytes_total(ov.drop_last()) + match ov.last().1 {
            ObjView::Stream(_, c, _, _) => c.len(),
            _ => 0nat,
        }
    }
}

/// How many of the objects are image streams.
pub open spec fn image_stream_count(ov: Seq<(ObjId, ObjView)>) -> nat
    decreases ov.len(),
{
    if ov.len() == 0 {
        0
    } else {
        image_stream_count(ov.drop_last()) + match ov.last().1 {
            ObjView::Stream(e, _, _, _) => if is_image_entries(e) { 1nat } else { 0nat },
            _ => 0nat,
        }
    }
}

/// The census note: `images: N  stream_bytes: M`.
pub open spec fn census_note(images: u32, stream_bytes: u64) -> Seq<u8> {
    NOTE_CENSUS_IMAGES@ + decimal_spec(images as nat) + NOTE_CENSUS_STREAM_BYTES@ + decimal_spec(stream_bytes as nat)
}

proof fn lemma_decimal_ascii(n: nat)
    ensures
        forall|i: int| 0 <= i < decimal_spec(n).len() ==> 48 <= #[trigger] decimal_spec(n)[i] <= 57,
    decreases n,
{
    if n < 10 {
        assert(decimal_spec(n)[0] == 48 + n);
    } else {
        lemma_decimal_ascii(n / 10);
        let d = decimal_spec(n / 10);
        assert(decimal_spec(n) == d.push((48 + n % 10) as u8));
        assert forall|i: int| 0 <= i < decimal_spec(n).len() implies 48 <= #[trigger] decimal_spec(n)[i] <= 57 by {
            if i < d.len() {
                assert(decimal_spec(n)[i] == d[i]);
            }
        }
    }
}

fn note_census(images: u32, stream_bytes: u64) -> (s: String)
    ensures
        s@ == super::text::ascii_chars(census_note(images, stream_bytes)),
{
    let a = concat(&NOTE_CENSUS_IMAGES, decimal(images as u64).as_slice());
    let b = concat(a.as_slice(), &NOTE_CENSUS_STREAM_BYTES);
    let c = concat(b.as_slice(), decimal(stream_bytes).as_slice());
    proof {
        lemma_decimal_ascii(images as nat);
        lemma_decimal_ascii(stream_bytes as nat);
        assert(c@ =~= census_note(images, stream_bytes));
        assert(NOTE_CENSUS_IMAGES@ =~= seq![105u8, 109, 97, 103, 101, 115, 58, 32]);
        assert(NOTE_CENSUS_STREAM_BYTES@ =~= seq![32u8, 32, 115, 116, 114, 101, 97, 109, 95, 98, 121, 116, 101, 115, 58, 32]);
        assert forall|i: int| 0 <= i < c@.len() implies c@[i] < 128 by {
            let l1 = NOTE_CENSUS_IMAGES@.len() as int;
            let l2 = l1 + decimal_spec(images as nat).len();
            let l3 = l2 + NOTE_CENSUS_STREAM_BYTES@.len();
            if i < l1 {
            } else if i < l2 {
                assert(c@[i] == decimal_spec(images as nat)[i - l1]);
            } else if i < l3 {
            } else {
                assert(c@[i] == decimal_spec(stream_bytes as nat)[i - l3]);
            }
        }
    }
    ascii_string(c)
}

/// What the census reports for a loaded document.
pub open spec fn census_ok(c: Census, v: super::object::DocView, len: nat) -> bool {
    &&& c.pages == pdf_page_count(v) as u32
    &&& c.objects == v.objects.len() as u32
    &&& c.bytes == len as u64
    &&& c.stream_bytes == stream_bytes_total(v.objects) as u64
    &&& c.image_streams == image_stream_count(v.objects) as u32
    &&& c.notes@.len() == 1
    &&& c.notes@[0]@ == super::text::ascii_chars(census_note(c.image_streams, c.stream_bytes))
}

/// Count pages, objects, stream bytes and image streams of a document.
pub fn census(bytes: &[u8]) -> (r: Result<Census, PdfError>)
    ensures
        match r {
            Ok(c) => parsed_pdf(bytes@) is Some && !pdf_encrypted(parsed_pdf(bytes@)->0)
                && census_ok(c, parsed_pdf(bytes@)->0, bytes@.len()),
            Err(PdfError::Encrypted) => parsed_pdf(bytes@) is Some && pdf_encrypted(parsed_pdf(bytes@)->0),
            Err(PdfError::Invalid(_)) => parsed_pdf(bytes@) is None,
            Err(PdfError::Other(_)) => false,
        },
{
    let doc = match load(bytes) {
        Ok(d) => d,
        Err(e) => {
            return Err(e);
        },
    };
    let ghost ov = objects_view(doc.objects@);
    proof {
        lemma_objects_view(doc.objects@);
    }
    let pages = page_count(&doc) as u32;
    let mut total: u128 = 0;
    let mut images: u64 = 0;
    let mut i: usize = 0;
    while i < doc.objects.len()
        invariant
            i <= doc.objects.len(),
            ov == objects_view(doc.objects@),
            ov.len() == doc.objects@.len(),
            forall|j: int| 0 <= j < doc.objects@.len() ==> #[trigger] ov[j] == (doc.objects@[j].0, obj_view(doc.objects@[j].1)),
            total == stream_bytes_total(ov.take(i as int)),
            images == image_stream_count(ov.take(i as int)),
            total <= i * (usize::MAX as int),
            images <= i,
        decreases doc.objects.len() - i,
    {
        proof {
            assert(ov.take(i + 1).drop_last() =~= ov.take(i as int));
        }
        match &doc.objects[i].1 {
            PdfObject::Stream(s) => {
                proof {
                    assert(i * (usize::MAX as int) + usize::MAX <= u128::MAX) by (nonlinear_arith)
                        requires
                            i < usize::MAX,
                            usize::MAX <= 0xffff_ffff_ffff_ffff,
                    ;
                }
                total = total + s.content.len() as u128;
                if is_image(&s.dict) {
                    images = images + 1;
                }
            },
            _ => {},
        }
        proof {
            assert((i + 1) * (usize::MAX as int) == i * (usize::MAX as int) + usize::MAX) by (nonlinear_arith);
        }
        i = i + 1;
    }
    proof {
        assert(ov.take(i as int) =~= ov);
    }
    let stream_bytes = total as u64;
    let image_streams = images as u32;
    let mut notes: Vec<String> = Vec::new();
    notes.push(note_census(image_streams, stream_bytes));
    Ok(Census {
        pages,
        objects: doc.objects.len() as u32,
        bytes: bytes.len() as u64,
        stream_bytes,
        image_streams,
        notes,
    })
}

proof fn lemma_filter_sorted(s: Seq<(ObjId, ObjView)>, f: spec_fn((ObjId, ObjView)) -> bool)
    requires
        view_ids_sorted(s),
    ensures
        view_ids_sorted(s.filter(f)),
    decreases s.len(),
{
    reveal(Seq::filter);
    if s.len() > 0 {
        let d = s.drop_last();
        assert(view_ids_sorted(d));
        lemma_filter_sorted(d, f);
        if f(s.last()) {
            let t = d.filter(f);
            assert forall|i: int, j: int| 0 <= i < j < t.push(s.last()).len()
                implies id_lt(#[trigger] t.push(s.last())[i].0, #[trigger] t.push(s.last())[j].0) by {
                if j == t.len() {
                    assert(t.contains(t[i]));
                    d.lemma_filter_contains_rev(f, t[i]);
                    let k = choose|k: int| 0 <= k < d.len() && d[k] == t[i];
                    assert(id_lt(s[k].0, s[s.len() - 1].0));
                }
            }
        }
    }
}

/// Digits and note texts are ASCII.
proof fn lemma_ascii_concat(a: Seq<u8>, b: Seq<u8>)
    requires
        forall|i: int| 0 <= i < a.len() ==> a[i] < 128,
        forall|i: int| 0 <= i < b.len() ==> b[i] < 128,
    ensures
        forall|i: int| 0 <= i < (a + b).len() ==> (a + b)[i] < 128,
{
    assert forall|i: int| 0 <= i < (a + b).len() implies (a + b)[i] < 128 by {
        if i >= a.len() {
            assert((a + b)[i] == b[i - a.len()]);
        }
    }
}

/// The note after a rewrite: `orphans=A reflate=B images=C dedup=D skipped=E`.
pub open spec fn counts_note(st: CompressStats) -> Seq<u8> {
    NOTE_ORPHANS@ + decimal_spec(st.orphans_removed as nat) + NOTE_REFLATE@ + decimal_spec(st.streams_reflated as nat)
        + NOTE_IMAGES@ + decimal_spec(st.images_rewritten as nat) + NOTE_DEDUP@ + decimal_spec(st.images_deduped as nat)
        + NOTE_SKIPPED@ + decimal_spec(st.images_skipped as nat)
}

pub(crate) fn ascii_const(b: &[u8]) -> (r: Vec<u8>)
    requires
        forall|i: int| 0 <= i < b@.len() ==> b@[i] < 128,
    ensures
        r@ == b@,
        forall|i: int| 0 <= i < r@.len() ==> r@[i] < 128,
{
    copy_bytes(b)
}

pub(crate) fn append_number(text: Vec<u8>, label: &[u8], n: u32) -> (r: Vec<u8>)
    requires
        forall|i: int| 0 <= i < text@.len() ==> text@[i] < 128,
        forall|i: int| 0 <= i < label@.len() ==> label@[i] < 128,
    ensures
        r@ == text@ + label@ + decimal_spec(n as nat),
        forall|i: int| 0 <= i < r@.len() ==> r@[i] < 128,
{
    let a = concat(text.as_slice(), label);
    let r = concat(a.as_slice(), decimal(n as u64).as_slice());
    proof {
        lemma_decimal_ascii(n as nat);
        lemma_ascii_concat(text@, label@);
        assert forall|i: int| 0 <= i < decimal_spec(n as nat).len() implies decimal_spec(n as nat)[i] < 128 by {
            assert(48 <= decimal_spec(n as nat)[i] <= 57);
        }
        lemma_ascii_concat(a@, decimal_spec(n as nat));
    }
    r
}

fn note_counts(st: &CompressStats) -> (s: String)
    ensures
        s@ == ascii_chars(counts_note(*st)),
{
    proof {
        assert(NOTE_ORPHANS@ =~= seq![111u8, 114, 112, 104, 97, 110, 115, 61]);
        assert(NOTE_REFLATE@ =~= seq![32u8, 114, 101, 102, 108, 97, 116, 101, 61]);
        assert(NOTE_IMAGES@ =~= seq![32u8, 105, 109, 97, 103, 101, 115, 61]);
        assert(NOTE_DEDUP@ =~= seq![32u8, 100, 101, 100, 117, 112, 61]);
        assert(NOTE_SKIPPED@ =~= seq![32u8, 115, 107, 105, 112, 112, 101, 100, 61]);
    }
    let t0: Vec<u8> = Vec::new();
    let t1 = append_number(t0, &NOTE_ORPHANS, st.orphans_removed);
    let t2 = append_number(t1, &NOTE_REFLATE, st.streams_reflated);
    let t3 = append_number(t2, &NOTE_IMAGES, st.images_rewritten);
    let t4 = append_number(t3, &NOTE_DEDUP, st.images_deduped);
    let t5 = append_number(t4, &NOTE_SKIPPED, st.images_skipped);
    proof {
        assert(t5@ =~= counts_note(*st));
    }
    ascii_string(t5)
}

/// What a successful rewrite promises: never more bytes than came in; either the input
/// itself (`kept_original`) or a smaller file that lopdf wrote.
pub open spec fn rewrite_ok(input: Seq<u8>, out: Seq<u8>, st: CompressStats) -> bool {
    &&& st.input_bytes == input.len()
    &&& st.output_bytes == out.len()
    &&& out.len() <= input.len()
    &&& st.kept_original ==> out == input
    &&& !st.kept_original ==> out.len() < input.len() && exists|w: super::object::DocView| saved_pdf(w) == Some(out)
    &&& st.notes@.len() == 1
    &&& st.kept_original ==> st.notes@[0]@ == ascii_chars(NOTE_KEPT_ORIGINAL@)
    &&& !st.kept_original ==> st.notes@[0]@ == ascii_chars(counts_note(st))
}

/// The keep-or-write decision after a rewrite into `w` under `plan`: lopdf can write `w`;
/// the input is kept exactly when that file is not shorter, and otherwise that file is the
/// output.
pub open spec fn rewrite_decided<J: Fn(u32, u32, &[u8]) -> Vec<u8>>(encode_jpeg: J, input: Seq<u8>, out: Seq<u8>, st: CompressStats,
    v: super::object::DocView, w: super::object::DocView, plan: Seq<(ObjId, ObjId)>) -> bool {
    &&& saved_pdf(w) is Some
    &&& plan_ok(v.objects, plan)
    &&& rewritten_from(encode_jpeg, v, w, plan)
    &&& st.images_deduped as int == plan.len() % 0x1_0000_0000
    &&& (st.kept_original <==> saved_pdf(w)->0.len() >= input.len())
    &&& !st.kept_original ==> out == saved_pdf(w)->0
}

/// What compressing `bytes` gives: refused when lopdf cannot parse it or it is encrypted;
/// else the document is rewritten, and either written (see `rewrite_decided`) or, when lopdf
/// cannot write the rewritten document, `Other`.
pub open spec fn compress_outcome<J: Fn(u32, u32, &[u8]) -> Vec<u8>>(encode_jpeg: J, bytes: Seq<u8>, r: Result<(Vec<u8>, CompressStats), PdfError>) -> bool {
    match r {
        Ok((out, st)) => {
            &&& parsed_pdf(bytes) is Some && !pdf_encrypted(parsed_pdf(bytes)->0)
            &&& rewrite_ok(bytes, out@, st)
            &&& exists|w: super::object::DocView, plan: Seq<(ObjId, ObjId)>|
                rewrite_decided(encode_jpeg, bytes, out@, st, parsed_pdf(bytes)->0, w, plan)
        },
        Err(PdfError::Encrypted) => parsed_pdf(bytes) is Some && pdf_encrypted(parsed_pdf(bytes)->0),
        Err(PdfError::Invalid(_)) => parsed_pdf(bytes) is None,
        Err(PdfError::Other(_)) => {
            &&& parsed_pdf(bytes) is Some && !pdf_encrypted(parsed_pdf(bytes)->0)
            &&& exists|w: super::object::DocView, plan: Seq<(ObjId, ObjId)>|
                plan_ok(parsed_pdf(bytes)->0.objects, plan) && rewritten_from(encode_jpeg, parsed_pdf(bytes)->0, w, plan)
                && saved_pdf(w) is None
        },
    }
}

proof fn lemma_outcome_written<J: Fn(u32, u32, &[u8]) -> Vec<u8>>(encode_jpeg: J, bytes: Seq<u8>, out: Vec<u8>, st: CompressStats,
    w: super::object::DocView, plan: Seq<(ObjId, ObjId)>)
    requires
        parsed_pdf(bytes) is Some,
        !pdf_encrypted(parsed_pdf(bytes)->0),
        rewrite_ok(bytes, out@, st),
        rewrite_decided(encode_jpeg, bytes, out@, st, parsed_pdf(bytes)->0, w, plan),
    ensures
        compress_outcome(encode_jpeg, bytes, Ok((out, st))),
{
    assert(exists|w2: super::object::DocView, p2: Seq<(ObjId, ObjId)>|
        rewrite_decided(encode_jpeg, bytes, out@, st, parsed_pdf(bytes)->0, w2, p2));
    let r: Result<(Vec<u8>, CompressStats), PdfError> = Ok((out, st));
    match r {
        Ok((o, s2)) => {
            assert(o == out && s2 == st);
        },
        Err(_) => {},
    }
}

/// The passes that make the written document `w` from the parsed one `v`: `a1` are objects of
/// `v` that the trailer reaches; the image pass takes them to `a2` (`images_outcome`, for the
/// images `dec` it decoded, whose de-duplication plan is `plan`); `a3` are exactly the objects
/// of `a2` that the trailer still reaches, in order; `w` has them, each re-deflated or kept
/// as `reflate_step` says.
pub open spec fn passes_from<J: Fn(u32, u32, &[u8]) -> Vec<u8>>(encode_jpeg: J, v: super::object::DocView, w: super::object::DocView,
    plan: Seq<(ObjId, ObjId)>, a1: Seq<(ObjId, ObjView)>, a2: Seq<(ObjId, PdfObject)>, st: ImageStats,
    dec: Seq<(ObjId, super::images::DecodedImage)>, a3: Seq<(ObjId, PdfObject)>) -> bool {
    &&& forall|k: int| 0 <= k < a1.len() ==> v.objects.contains(#[trigger] a1[k]) && live_ids(v).contains(a1[k].0)
    &&& super::images::images_outcome(encode_jpeg, a1, a2, st, dec)
    &&& plan == dedup_spec(image_ids(dec), image_keys(dec), dec.len())
    &&& objects_view(a3) == objects_view(a2).filter(|e: (ObjId, ObjView)| live_from_roots(objects_view(a2), v.trailer).contains(e.0))
    &&& w.objects.len() == a3.len()
    &&& forall|k: int| 0 <= k < a3.len() ==> (#[trigger] w.objects[k]).0 == a3[k].0 && reflate_step(a3[k].1, w.objects[k].1)
}

/// How a written document relates to the parsed one under a de-duplication plan: the same
/// header and trailer; made by the passes (`passes_from`); so only objects that the trailer
/// reaches, each of them the parsed object with its references to dropped duplicates
/// redirected, or a rewritten stream.
pub open spec fn rewritten_from<J: Fn(u32, u32, &[u8]) -> Vec<u8>>(encode_jpeg: J, v: super::object::DocView, w: super::object::DocView,
    plan: Seq<(ObjId, ObjId)>) -> bool {
    &&& w.version == v.version
    &&& w.binary_mark == v.binary_mark
    &&& w.trailer == v.trailer
    &&& exists|a1: Seq<(ObjId, ObjView)>, a2: Seq<(ObjId, PdfObject)>, st: ImageStats,
        dec: Seq<(ObjId, super::images::DecodedImage)>, a3: Seq<(ObjId, PdfObject)>|
        #[trigger] passes_from(encode_jpeg, v, w, plan, a1, a2, st, dec, a3)
    &&& forall|k: int| 0 <= k < w.objects.len() ==> live_ids(v).contains((#[trigger] w.objects[k]).0)
        && exists|j: int| 0 <= j < v.objects.len() && v.objects[j].0 == w.objects[k].0
            && (w.objects[k].1 == remapped(v.objects[j].1, plan) || w.objects[k].1 is Stream)
}

proof fn lemma_filter_from<A>(s: Seq<A>, p: spec_fn(A) -> bool)
    ensures
        forall|k: int| 0 <= k < s.filter(p).len() ==> s.contains(#[trigger] s.filter(p)[k]) && p(s.filter(p)[k]),
{
    assert forall|k: int| 0 <= k < s.filter(p).len() implies s.contains(#[trigger] s.filter(p)[k]) && p(s.filter(p)[k]) by {
        let x = s.filter(p)[k];
        assert(s.filter(p).contains(x)) by {
            assert(s.filter(p)[k] == x);
        }
        s.lemma_filter_contains_rev(p, x);
        s.lemma_filter_pred(p, k);
    }
}

/// The passes compose: pruning keeps parsed objects whose ids the trailer reaches, the image
/// pass redirects or rewrites streams, the second pruning keeps a part, and re-deflating only
/// rewrites streams.
proof fn lemma_passes_compose(
    v: super::object::DocView,
    a1: Seq<(ObjId, ObjView)>,
    a2: Seq<(ObjId, ObjView)>,
    a3: Seq<(ObjId, ObjView)>,
    a4: Seq<(ObjId, ObjView)>,
    plan: Seq<(ObjId, ObjId)>,
)
    requires
        forall|k: int| 0 <= k < a1.len() ==> v.objects.contains(#[trigger] a1[k]) && live_ids(v).contains(a1[k].0),
        images_pass_ok(a1, a2, plan),
        forall|k: int| 0 <= k < a3.len() ==> a2.contains(#[trigger] a3[k]),
        a4.len() == a3.len(),
        forall|k: int| 0 <= k < a4.len() ==> (#[trigger] a4[k]).0 == a3[k].0 && (a4[k].1 == a3[k].1 || a4[k].1 is Stream),
    ensures
        forall|k: int| 0 <= k < a4.len() ==> live_ids(v).contains((#[trigger] a4[k]).0)
            && exists|j: int| 0 <= j < v.objects.len() && v.objects[j].0 == a4[k].0
                && (a4[k].1 == remapped(v.objects[j].1, plan) || a4[k].1 is Stream),
{
    assert forall|k: int| 0 <= k < a4.len() implies live_ids(v).contains((#[trigger] a4[k]).0)
        && exists|j: int| 0 <= j < v.objects.len() && v.objects[j].0 == a4[k].0
            && (a4[k].1 == remapped(v.objects[j].1, plan) || a4[k].1 is Stream) by {
        assert(a2.contains(a3[k]));
        let i2 = choose|i2: int| 0 <= i2 < a2.len() && a2[i2] == a3[k];
        let i1 = choose|i1: int| 0 <= i1 < a1.len() && a1[i1].0 == (#[trigger] a2[i2]).0
            && (a2[i2].1 == remapped(a1[i1].1, plan) || a2[i2].1 is Stream);
        assert(v.objects.contains(a1[i1]));
        let j = choose|j: int| 0 <= j < v.objects.len() && v.objects[j] == a1[i1];
        assert(v.objects[j].0 == a4[k].0);
        assert(live_ids(v).contains(a1[i1].0));
        assert(a4[k].1 == a3[k].1 || a4[k].1 is Stream);
        assert(a4[k].1 == remapped(v.objects[j].1, plan) || a4[k].1 is Stream);
    }
}

/// A plan that is fit for some of the objects is fit for all of them.
proof fn lemma_plan_ok_wider(small: Seq<(ObjId, ObjView)>, big: Seq<(ObjId, ObjView)>, plan: Seq<(ObjId, ObjId)>)
    requires
        plan_ok(small, plan),
        forall|k: int| 0 <= k < small.len() ==> big.contains(#[trigger] small[k]),
    ensures
        plan_ok(big, plan),
{
    assert forall|r: int| 0 <= r < plan.len() implies {
        &&& (#[trigger] plan[r]).0 != plan[r].1
        &&& !dropped(plan, plan[r].1)
        &&& view_ids(big).contains(plan[r].0)
        &&& view_ids(big).contains(plan[r].1)
    } by {
        let a = choose|a: int| 0 <= a < view_ids(small).len() && view_ids(small)[a] == plan[r].0;
        let b = choose|b: int| 0 <= b < view_ids(small).len() && view_ids(small)[b] == plan[r].1;
        assert(big.contains(small[a]));
        assert(big.contains(small[b]));
        let ja = choose|ja: int| 0 <= ja < big.len() && big[ja] == small[a];
        let jb = choose|jb: int| 0 <= jb < big.len() && big[jb] == small[b];
        assert(view_ids(big)[ja] == plan[r].0);
        assert(view_ids(big)[jb] == plan[r].1);
    }
}

/// Shrink a PDF: prune unreachable objects, de-duplicate and recompress images (JPEGs by
/// `encode_jpeg`), re-deflate streams, and write with a classic xref table. When that is
/// not smaller, the input comes back unchanged.
pub fn compress_document<J: Fn(u32, u32, &[u8]) -> Vec<u8>>(bytes: &[u8], encode_jpeg: &J) -> (r: Result<(Vec<u8>, CompressStats), PdfError>)
    requires
        forall|w: u32, h: u32, rgb: &[u8]| encode_jpeg.requires((w, h, rgb)),
    ensures
        compress_outcome(*encode_jpeg, bytes@, r),
{
    let mut stats = CompressStats::new();
    stats.input_bytes = bytes.len() as u64;
    let mut doc = match load(bytes) {
        Ok(d) => d,
        Err(e) => {
            return Err(e);
        },
    };
    let before = doc.objects.len();
    let ghost v0 = doc_view(doc);
    let pruned = prune_objects(&mut doc);
    proof {
        lemma_filter_sorted(v0.objects, |e: (ObjId, ObjView)| super::backend::live_ids(v0).contains(e.0));
        assert(objects_view(doc.objects@) == pruned_doc(v0).objects);
        lemma_objects_view(doc.objects@);
    }
    proof {
        lemma_filter_from(v0.objects, |e: (ObjId, ObjView)| live_ids(v0).contains(e.0));
    }
    if pruned.len() == 0 {
        let kept = reachable_ids(&doc);
        let mut taken: Vec<(ObjId, PdfObject)> = Vec::new();
        std::mem::swap(&mut taken, &mut doc.objects);
        let ghost t = objects_view(taken@);
        doc.objects = keep_objects(taken, &kept);
        proof {
            let p1 = objects_view(doc.objects@);
            lemma_filter_from(t, |e: (ObjId, ObjView)| kept@.contains(id_key(e.0)));
            assert forall|k: int| 0 <= k < p1.len() implies v0.objects.contains(#[trigger] p1[k]) && live_ids(v0).contains(p1[k].0) by {
                assert(t.contains(p1[k]));
                let q = choose|q: int| 0 <= q < t.len() && t[q] == p1[k];
                assert(v0.objects.contains(t[q]));
            }
        }
    }
    let ghost a1 = objects_view(doc.objects@);
    let after_prune = doc.objects.len();
    stats.orphans_removed = if before >= after_prune { (before - after_prune) as u32 } else { 0 };
    let img: ImageStats = process_images(&mut doc, encode_jpeg);
    let ghost a2 = objects_view(doc.objects@);
    let ghost a2x = doc.objects@;
    let ghost dec = choose|dec: Seq<(ObjId, DecodedImage)>| #[trigger] super::images::images_outcome(*encode_jpeg, a1,
        doc.objects@, img, dec);
    proof {
        reveal(super::images::images_outcome);
    }
    let ghost plan = dedup_spec(image_ids(dec), image_keys(dec), dec.len());
    stats.images_rewritten = img.rewritten;
    stats.images_deduped = img.deduped;
    stats.images_skipped = img.skipped;
    let after_img = doc.objects.len();
    let kept = reachable_ids(&doc);
    let mut taken: Vec<(ObjId, PdfObject)> = Vec::new();
    std::mem::swap(&mut taken, &mut doc.objects);
    doc.objects = keep_objects(taken, &kept);
    let ghost a3 = objects_view(doc.objects@);
    let ghost d3 = doc.objects@;
    proof {
        lemma_filter_from(a2, |e: (ObjId, ObjView)| kept@.contains(id_key(e.0)));
        assert(dview(doc.trailer) == v0.trailer);
        let f1 = |e: (ObjId, ObjView)| kept@.contains(id_key(e.0));
        let f2 = |e: (ObjId, ObjView)| live_from_roots(objects_view(a2x), v0.trailer).contains(e.0);
        assert(f1 =~= f2);
        assert(objects_view(d3) == objects_view(a2x).filter(f2));
    }
    let removed = if after_img >= doc.objects.len() { (after_img - doc.objects.len()) as u32 } else { 0 };
    stats.orphans_removed = stats.orphans_removed.wrapping_add(removed);
    stats.streams_reflated = reflate_streams(&mut doc.objects);
    proof {
        let a4 = objects_view(doc.objects@);
        lemma_objects_view(d3);
        lemma_objects_view(doc.objects@);
        assert forall|k: int| 0 <= k < a4.len() implies (#[trigger] a4[k]).0 == a3[k].0 && (a4[k].1 == a3[k].1 || a4[k].1 is Stream) by {
            assert(reflate_step(d3[k].1, obj_view(doc.objects@[k].1)));
        }
        lemma_passes_compose(v0, a1, a2, a3, a4, plan);
        lemma_plan_ok_wider(a1, v0.objects, plan);
        assert(super::images::images_outcome(*encode_jpeg, a1, a2x, img, dec));
        assert forall|k: int| 0 <= k < d3.len() implies (#[trigger] doc_view(doc).objects[k]).0 == d3[k].0
            && reflate_step(d3[k].1, doc_view(doc).objects[k].1) by {
            assert(doc_view(doc).objects[k] == (doc.objects@[k].0, obj_view(doc.objects@[k].1)));
        }
        assert(passes_from(*encode_jpeg, v0, doc_view(doc), plan, a1, a2x, img, dec, d3));
        assert(rewritten_from(*encode_jpeg, v0, doc_view(doc), plan));
    }
    let out = match save_doc(&doc) {
        Ok(o) => o,
        Err(e) => {
            proof {
                assert(parsed_pdf(bytes@)->0 == v0);
                assert(plan_ok(v0.objects, plan) && rewritten_from(*encode_jpeg, v0, doc_view(doc), plan)
                    && saved_pdf(doc_view(doc)) is None);
            }
            return Err(e);
        },
    };
    if out.len() >= bytes.len() {
        stats.kept_original = true;
        stats.output_bytes = bytes.len() as u64;
        proof {
            assert(NOTE_KEPT_ORIGINAL@.len() == 33);
            assert(NOTE_KEPT_ORIGINAL@ =~= seq![111u8, 117, 116, 112, 117, 116, 32, 110, 111, 116, 32, 115, 109, 97, 108, 108,
                101, 114, 59, 32, 107, 101, 112, 116, 32, 111, 114, 105, 103, 105, 110, 97, 108]);
        }
        let note = ascii_string(ascii_const(&NOTE_KEPT_ORIGINAL));
        stats.notes.push(note);
        let same = copy_bytes(bytes);
        proof {
            assert(parsed_pdf(bytes@)->0 == v0);
            assert(rewrite_decided(*encode_jpeg, bytes@, same@, stats, v0, doc_view(doc), plan));
            assert(rewrite_ok(bytes@, same@, stats));
        }
        proof {
            lemma_outcome_written(*encode_jpeg, bytes@, same, stats, doc_view(doc), plan);
        }
        return Ok((same, stats));
    }
    stats.output_bytes = out.len() as u64;
    let note = note_counts(&stats);
    stats.notes.push(note);
    proof {
        assert(saved_pdf(doc_view(doc)) == Some(out@));
        assert(parsed_pdf(bytes@)->0 == v0);
        assert(saved_pdf(doc_view(doc)) == Some(out@) && plan_ok(v0.objects, plan) && rewritten_from(*encode_jpeg, v0, doc_view(doc), plan)
            && stats.images_deduped as int == plan.len() % 0x1_0000_0000);
        assert(rewrite_decided(*encode_jpeg, bytes@, out@, stats, v0, doc_view(doc), plan));
        assert(rewrite_ok(bytes@, out@, stats));
    }
    proof {
        lemma_outcome_written(*encode_jpeg, bytes@, out, stats, doc_view(doc), plan);
    }
    Ok((out, stats))
}

} // verus!
