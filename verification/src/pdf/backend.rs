//! The calls into lopdf (parse, prune, save, stream decoding, page tree) and
//! zune-jpeg (JPEG decoding), and the conversions between their values and ours.

use vstd::prelude::*;
use lopdf::{Object, StringFormat};
use super::object::{PdfDoc, PdfDict, PdfObject, PdfStream, ObjId, ObjView, DocView, doc_view, stream_view, reachable,
    doc_keys_distinct, objects_view, lemma_objects_view};
use super::graph::view_ids_sorted;

verus! {

#[verifier::external_type_specification]
#[verifier::external_body]
pub struct ExLopdfError(lopdf::Error);

#[verifier::external_type_specification]
#[verifier::external_body]
pub struct ExIoError(std::io::Error);

#[verifier::external_type_specification]
#[verifier::external_body]
pub struct ExLopdfDocument(lopdf::Document);

#[verifier::external_type_specification]
#[verifier::external_body]
pub struct ExLopdfObject(lopdf::Object);

#[verifier::external_type_specification]
#[verifier::external_body]
pub struct ExLopdfDictionary(lopdf::Dictionary);

#[verifier::external_type_specification]
#[verifier::external_body]
pub struct ExLopdfStream(lopdf::Stream);

/// What lopdf parses `bytes` into, when it can. lopdf is built here without its default
/// `rayon` feature, so it reads the objects one after another in cross-reference order and
/// the document depends on the bytes alone.
pub uninterp spec fn parsed_pdf(bytes: Seq<u8>) -> Option<DocView>;

/// Whether lopdf finds the document encrypted.
pub uninterp spec fn pdf_encrypted(doc: DocView) -> bool;

/// How many pages lopdf finds in the page tree.
pub uninterp spec fn pdf_page_count(doc: DocView) -> nat;

/// The file lopdf writes for the document, after renumbering, with a classic xref table.
pub uninterp spec fn saved_pdf(doc: DocView) -> Option<Seq<u8>>;

/// A stream's bytes after lopdf undoes its filters.
pub uninterp spec fn decoded_stream(s: ObjView) -> Option<Seq<u8>>;

/// The pixels zune-jpeg decodes from a JPEG. zune-jpeg is built here without its `x86` and
/// `neon` features, so only its portable scalar code runs and the pixels depend on the bytes
/// alone, whatever the machine.
pub uninterp spec fn jpeg_pixels(data: Seq<u8>) -> Option<Seq<u8>>;

/// Ids reached from the trailer's references.
pub open spec fn live_ids(v: DocView) -> Set<ObjId> {
    reachable(v.objects, super::object::refs_entries(v.trailer))
}

/// The document without the objects the trailer does not reach.
pub open spec fn pruned_doc(v: DocView) -> DocView {
    DocView { objects: v.objects.filter(|e: (ObjId, ObjView)| live_ids(v).contains(e.0)), ..v }
}

/// Ids of the objects the trailer does not reach, in order.
pub open spec fn unreached_ids(v: DocView) -> Seq<ObjId> {
    v.objects.filter(|e: (ObjId, ObjView)| !live_ids(v).contains(e.0)).map_values(|e: (ObjId, ObjView)| e.0)
}

#[verifier::external_body]
fn object_in(o: Object) -> PdfObject {
    match o {
        Object::Null => PdfObject::Null,
        Object::Boolean(b) => PdfObject::Boolean(b),
        Object::Integer(i) => PdfObject::Integer(i),
        Object::Real(r) => PdfObject::Real(r.to_string().into_bytes(), r as i64),
        Object::Name(n) => PdfObject::Name(n),
        Object::String(s, f) => PdfObject::Str(s, f == StringFormat::Hexadecimal),
        Object::Array(a) => PdfObject::Array(list_in(a)),
        Object::Dictionary(d) => PdfObject::Dictionary(dict_in(d)),
        Object::Stream(s) => PdfObject::Stream(stream_in(s)),
        Object::Reference(id) => PdfObject::Reference(id),
    }
}

#[verifier::external_body]
fn list_in(a: Vec<Object>) -> Vec<PdfObject> {
    a.into_iter().map(object_in).collect()
}

#[verifier::external_body]
fn dict_in(d: lopdf::Dictionary) -> PdfDict {
    PdfDict { entries: d.into_iter().map(|(k, v)| (k, object_in(v))).collect() }
}

#[verifier::external_body]
fn stream_in(s: lopdf::Stream) -> PdfStream {
    PdfStream {
        dict: dict_in(s.dict),
        content: s.content,
        allows_compression: s.allows_compression,
        start_position: s.start_position,
    }
}

#[verifier::external_body]
fn object_out(o: &PdfObject) -> Object {
    match o {
        PdfObject::Null => Object::Null,
        PdfObject::Boolean(b) => Object::Boolean(*b),
        PdfObject::Integer(i) => Object::Integer(*i),
        PdfObject::Real(text, _) => real_out(text),
        PdfObject::Name(n) => Object::Name(n.clone()),
        PdfObject::Str(s, hex) => string_out(s, *hex),
        PdfObject::Array(a) => Object::Array(list_out(a)),
        PdfObject::Dictionary(d) => Object::Dictionary(dict_out(d)),
        PdfObject::Stream(s) => Object::Stream(stream_out(s)),
        PdfObject::Reference(id) => Object::Reference(*id),
    }
}

#[verifier::external_body]
fn real_out(text: &Vec<u8>) -> Object {
    Object::Real(String::from_utf8_lossy(text).parse().unwrap_or_default())
}

#[verifier::external_body]
fn string_out(s: &Vec<u8>, hex: bool) -> Object {
    match hex {
        true => Object::String(s.clone(), StringFormat::Hexadecimal),
        false => Object::String(s.clone(), StringFormat::Literal),
    }
}

#[verifier::external_body]
fn list_out(a: &Vec<PdfObject>) -> Vec<Object> {
    a.iter().map(object_out).collect()
}

#[verifier::external_body]
fn dict_out(d: &PdfDict) -> lopdf::Dictionary {
    d.entries.iter().map(|(k, v)| (k.clone(), object_out(v))).collect()
}

#[verifier::external_body]
fn stream_out(s: &PdfStream) -> lopdf::Stream {
    lopdf::Stream {
        dict: dict_out(&s.dict),
        content: s.content.clone(),
        allows_compression: s.allows_compression,
        start_position: s.start_position,
    }
}

#[verifier::external_body]
fn document_in(d: lopdf::Document) -> PdfDoc {
    PdfDoc {
        version: d.version.into_bytes(),
        binary_mark: d.binary_mark,
        max_id: d.max_id,
        max_bookmark_id: d.max_bookmark_id,
        trailer: dict_in(d.trailer),
        objects: d.objects.into_iter().map(|(id, o)| (id, object_in(o))).collect(),
    }
}

#[verifier::external_body]
fn document_out(d: &PdfDoc) -> lopdf::Document {
    let mut doc = lopdf::Document::new();
    doc.version = String::from_utf8_lossy(&d.version).into_owned();
    doc.binary_mark = d.binary_mark.clone();
    doc.max_id = d.max_id;
    doc.max_bookmark_id = d.max_bookmark_id;
    doc.trailer = dict_out(&d.trailer);
    doc.objects = d.objects.iter().map(|(id, o)| (*id, object_out(o))).collect();
    doc
}

/// `lopdf::Document::load_from` on the bytes, read sequentially (no `rayon` feature): the
/// parsed document (its objects in id order,
/// as lopdf keeps them in a `BTreeMap`, and each dictionary with distinct keys, as lopdf's
/// `Dictionary` is an insertion-ordered map), or lopdf's error.
#[verifier::external_body]
pub(crate) fn parse_pdf(bytes: &[u8]) -> (r: Result<PdfDoc, lopdf::Error>)
    ensures
        match r {
            Ok(d) => parsed_pdf(bytes@) == Some(doc_view(d)) && super::graph::view_ids_sorted(super::object::objects_view(d.objects@))
                && doc_keys_distinct(doc_view(d)),
            Err(_) => parsed_pdf(bytes@) is None,
        },
{
    lopdf::Document::load_from(std::io::Cursor::new(bytes)).map(document_in)
}

/// `lopdf::Document::is_encrypted`: the trailer's `/Encrypt` leads to a dictionary.
#[verifier::external_body]
pub(crate) fn is_encrypted(doc: &PdfDoc) -> (r: bool)
    ensures
        r == pdf_encrypted(doc_view(*doc)),
{
    document_out(doc).is_encrypted()
}

/// `lopdf::Document::get_pages`, counted.
#[verifier::external_body]
pub(crate) fn page_count(doc: &PdfDoc) -> (r: usize)
    ensures
        r == pdf_page_count(doc_view(*doc)),
{
    document_out(doc).get_pages().len()
}

/// `lopdf::Document::prune_objects` on a copy of the document: the ids of the objects that
/// no chain of references from the trailer reaches, in id order. Stated for documents whose
/// ids are in increasing order and whose dictionaries hold each key once (as lopdf's parse
/// gives them): lopdf walks every dictionary entry, so it reaches what `live_ids` reaches.
#[verifier::external_body]
fn unreached_objects(doc: &PdfDoc) -> (ids: Vec<ObjId>)
    requires
        view_ids_sorted(objects_view(doc.objects@)),
        doc_keys_distinct(doc_view(*doc)),
    ensures
        ids@ == unreached_ids(doc_view(*doc)),
{
    document_out(doc).prune_objects()
}

fn contains_id(v: &Vec<ObjId>, x: ObjId) -> (r: bool)
    ensures
        r == v@.contains(x),
{
    let mut i: usize = 0;
    while i < v.len()
        invariant
            i <= v.len(),
            forall|q: int| 0 <= q < i ==> v@[q] != x,
        decreases v.len() - i,
    {
        if v[i].0 == x.0 && v[i].1 == x.1 {
            proof {
                assert(v@[i as int] == x);
            }
            return true;
        }
        i = i + 1;
    }
    false
}

/// Drop every object that no chain of references from the trailer reaches (lopdf's
/// `prune_objects` finds them); their ids, in id order.
pub(crate) fn prune_objects(doc: &mut PdfDoc) -> (pruned: Vec<ObjId>)
    requires
        view_ids_sorted(objects_view(old(doc).objects@)),
        doc_keys_distinct(doc_view(*old(doc))),
    ensures
        doc_view(*final(doc)) == pruned_doc(doc_view(*old(doc))),
        pruned@ == unreached_ids(doc_view(*old(doc))),
{
    let ghost v = doc_view(*doc);
    let ids = unreached_objects(doc);
    let mut taken: Vec<(ObjId, PdfObject)> = Vec::new();
    std::mem::swap(&mut taken, &mut doc.objects);
    proof {
        lemma_objects_view(taken@);
        assert(objects_view(taken@) == v.objects);
    }
    let mut kept: Vec<(ObjId, PdfObject)> = Vec::new();
    let n = taken.len();
    let mut i: usize = 0;
    while i < n
        invariant
            n == taken.len(),
            i <= n,
            objects_view(taken@) == v.objects,
            v.objects.len() == n,
            forall|j: int| 0 <= j < n ==> #[trigger] v.objects[j] == (taken@[j].0, super::object::obj_view(taken@[j].1)),
            ids@ == unreached_ids(v),
            objects_view(kept@) == v.objects.take(i as int).filter(|x: (ObjId, ObjView)| live_ids(v).contains(x.0)),
        decreases n - i,
    {
        let id = taken[i].0;
        let dropped = contains_id(&ids, id);
        let ghost e = v.objects[i as int];
        let ghost pre = kept@;
        proof {
            assert(e.0 == id);
            let un = v.objects.filter(|x: (ObjId, ObjView)| !live_ids(v).contains(x.0));
            if !live_ids(v).contains(id) {
                v.objects.lemma_filter_contains(|x: (ObjId, ObjView)| !live_ids(v).contains(x.0), i as int);
                let q = choose|q: int| 0 <= q < un.len() && un[q] == e;
                assert(unreached_ids(v)[q] == id);
            }
            if ids@.contains(id) {
                let q = choose|q: int| 0 <= q < ids@.len() && ids@[q] == id;
                assert(un[q].0 == id);
                v.objects.lemma_filter_pred(|x: (ObjId, ObjView)| !live_ids(v).contains(x.0), q);
            }
            assert(!live_ids(v).contains(id) ==> ids@.contains(id));
            assert(ids@.contains(id) ==> !live_ids(v).contains(id));
            assert(dropped == !live_ids(v).contains(id));
            reveal(Seq::filter);
            assert(v.objects.take(i as int + 1).drop_last() =~= v.objects.take(i as int));
            assert(v.objects.take(i as int + 1).last() == e);
        }
        if !dropped {
            let o = super::object::copy_object(&taken[i].1);
            kept.push((id, o));
            proof {
                assert(kept@.drop_last() =~= pre);
                assert(objects_view(kept@) == objects_view(pre).push((id, super::object::obj_view(o))));
            }
        }
        i = i + 1;
    }
    proof {
        assert(v.objects.take(n as int) =~= v.objects);
    }
    doc.objects = kept;
    ids
}

/// `lopdf::Document::renumber_objects`, then `save_to` with a classic cross-reference table.
#[verifier::external_body]
pub(crate) fn save_pdf(doc: &PdfDoc) -> (r: Result<Vec<u8>, std::io::Error>)
    ensures
        match r {
            Ok(v) => saved_pdf(doc_view(*doc)) == Some(v@),
            Err(_) => saved_pdf(doc_view(*doc)) is None,
        },
{
    let mut d = document_out(doc);
    d.renumber_objects();
    d.reference_table.cross_reference_type = lopdf::xref::XrefType::CrossReferenceTable;
    let mut out = Vec::new();
    d.save_to(&mut out).map(|_| out)
}

/// `lopdf::Stream::decompressed_content`: the stream's bytes with its filters undone.
#[verifier::external_body]
pub(crate) fn decompressed_content(s: &PdfStream) -> (r: Result<Vec<u8>, lopdf::Error>)
    ensures
        match r {
            Ok(v) => decoded_stream(stream_view(*s)) == Some(v@),
            Err(_) => decoded_stream(stream_view(*s)) is None,
        },
{
    stream_out(s).decompressed_content()
}

/// lopdf's message for an error (its `Display`); nothing is stated of the text.
#[verifier::external_body]
pub(crate) fn error_text(e: &lopdf::Error) -> String {
    e.to_string()
}

/// The message of an I/O error from writing (its `Display`); nothing is stated of the text.
#[verifier::external_body]
pub(crate) fn io_error_text(e: &std::io::Error) -> String {
    e.to_string()
}

/// `zune_jpeg::JpegDecoder::decode` on the bytes, with only the scalar code paths compiled in
/// (no `x86` or `neon` feature): the decoded pixels, or `None` on error.
#[verifier::external_body]
pub(crate) fn decode_jpeg(data: &[u8]) -> (r: Option<Vec<u8>>)
    ensures
        match r {
            Some(v) => jpeg_pixels(data@) == Some(v@),
            None => jpeg_pixels(data@) is None,
        },
{
    zune_jpeg::JpegDecoder::new(std::io::Cursor::new(data)).decode().ok()
}

} // verus!
