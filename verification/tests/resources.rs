use lopdf::{Dictionary, Document, Object, Stream};
use pdfx::pdf::resources::{form_xobjects, page_xobjects, xobject_names};
use pdfx::pdf::structure::load;

fn dict(pairs: Vec<(&str, Object)>) -> Dictionary {
    let mut d = Dictionary::new();
    for (k, v) in pairs {
        d.set(k, v);
    }
    d
}

fn bytes_of(doc: &mut Document) -> Vec<u8> {
    let mut out = Vec::new();
    doc.save_to(&mut out).unwrap();
    out
}

fn names(pairs: &[(Vec<u8>, (u32, u16))]) -> Vec<(String, u32)> {
    pairs.iter().map(|(n, id)| (String::from_utf8(n.clone()).unwrap(), id.0)).collect()
}

/// A page whose own resources (behind a reference) name `Im1`, under a page tree node whose
/// resources name `Im1` and `Fm1`; `Fm1` is a form with its own resources, `Fm2` a form
/// without any, `Fm3` a form whose resources reference leads nowhere.
fn inherited() -> (Vec<u8>, (u32, u16), [(u32, u16); 3]) {
    let mut doc = Document::with_version("1.5");
    let img_a = doc.add_object(Stream::new(dict(vec![("Subtype", Object::Name(b"Image".to_vec()))]), vec![0]));
    let img_c = doc.add_object(Stream::new(dict(vec![("Subtype", Object::Name(b"Image".to_vec()))]), vec![1]));
    let inner = dict(vec![("XObject", Object::Dictionary(dict(vec![("X9", Object::Reference(img_a))])))]);
    let fm1 = doc.add_object(Stream::new(
        dict(vec![("Subtype", Object::Name(b"Form".to_vec())), ("Resources", Object::Dictionary(inner))]),
        b"q Q".to_vec(),
    ));
    let fm2 = doc.add_object(Stream::new(dict(vec![("Subtype", Object::Name(b"Form".to_vec()))]), b"q Q".to_vec()));
    let fm3 = doc.add_object(Stream::new(
        dict(vec![("Subtype", Object::Name(b"Form".to_vec())), ("Resources", Object::Reference((999, 0)))]),
        b"q Q".to_vec(),
    ));
    let pages_id = doc.new_object_id();
    let page_res = doc.add_object(dict(vec![(
        "XObject",
        Object::Dictionary(dict(vec![("Im1", Object::Reference(img_c)), ("Note", Object::Integer(3))])),
    )]));
    let content = doc.add_object(Stream::new(Dictionary::new(), b"q Q".to_vec()));
    let page = doc.add_object(dict(vec![
        ("Type", Object::Name(b"Page".to_vec())),
        ("Parent", Object::Reference(pages_id)),
        ("Contents", Object::Reference(content)),
        ("Resources", Object::Reference(page_res)),
    ]));
    let top_xobjects = dict(vec![
        ("Im1", Object::Reference(img_a)),
        ("Fm1", Object::Reference(fm1)),
        ("Fm2", Object::Reference(fm2)),
        ("Fm3", Object::Reference(fm3)),
    ]);
    doc.objects.insert(
        pages_id,
        Object::Dictionary(dict(vec![
            ("Type", Object::Name(b"Pages".to_vec())),
            ("Kids", Object::Array(vec![Object::Reference(page)])),
            ("Count", Object::Integer(1)),
            ("Resources", Object::Dictionary(dict(vec![("XObject", Object::Dictionary(top_xobjects))]))),
        ])),
    );
    let catalog = doc.add_object(dict(vec![
        ("Type", Object::Name(b"Catalog".to_vec())),
        ("Pages", Object::Reference(pages_id)),
    ]));
    doc.trailer.set("Root", Object::Reference(catalog));
    let bytes = bytes_of(&mut doc);
    (bytes, page, [fm1, fm2, fm3])
}

#[test]
fn page_inherits_xobjects_nearest_last() {
    let (bytes, page, _) = inherited();
    let doc = load(&bytes).unwrap();
    let pairs = page_xobjects(&doc, page);
    let got = names(&pairs);
    let order: Vec<&str> = got.iter().map(|(n, _)| n.as_str()).collect();
    assert_eq!(order, vec!["Im1", "Fm1", "Fm2", "Fm3", "Im1"]);
    // as a map, the page's own Im1 wins over the inherited one
    let mut map = std::collections::HashMap::new();
    for (n, id) in &pairs {
        map.insert(n.clone(), *id);
    }
    assert_eq!(map.len(), 4);
    assert_ne!(map[&b"Im1".to_vec()], pairs[0].1);
    assert_eq!(map[&b"Im1".to_vec()], pairs[4].1);
}

#[test]
fn page_without_resources_or_missing_page() {
    let (bytes, _, forms) = inherited();
    let doc = load(&bytes).unwrap();
    // a missing id gives nothing
    assert!(page_xobjects(&doc, (4000, 0)).is_empty());
    // a form stream is no page dictionary: nothing either
    assert!(page_xobjects(&doc, forms[0]).is_empty());
}

#[test]
fn form_xobjects_own_inherited_or_dangling() {
    let (bytes, _, [fm1, fm2, fm3]) = inherited();
    let doc = load(&bytes).unwrap();
    let own = form_xobjects(&doc, fm1).unwrap();
    assert_eq!(names(&own).iter().map(|(n, _)| n.as_str()).collect::<Vec<_>>(), vec!["X9"]);
    assert!(form_xobjects(&doc, fm2).is_none());
    assert_eq!(form_xobjects(&doc, fm3).unwrap().len(), 0);
    assert!(form_xobjects(&doc, (4000, 0)).is_none());
}

#[test]
fn xobject_names_skip_non_references() {
    let (bytes, page, _) = inherited();
    let doc = load(&bytes).unwrap();
    let page_dict = doc
        .objects
        .iter()
        .find(|(id, _)| *id == page)
        .map(|(_, o)| o)
        .unwrap();
    let res_id = match page_dict {
        pdfx::pdf::object::PdfObject::Dictionary(d) => d
            .entries
            .iter()
            .find(|(k, _)| k.as_slice() == b"Resources")
            .map(|(_, v)| match v {
                pdfx::pdf::object::PdfObject::Reference(r) => *r,
                _ => panic!("resources not a reference"),
            })
            .unwrap(),
        _ => panic!("page not a dictionary"),
    };
    let res = doc
        .objects
        .iter()
        .find(|(id, _)| *id == res_id)
        .map(|(_, o)| match o {
            pdfx::pdf::object::PdfObject::Dictionary(d) => d,
            _ => panic!("not a dictionary"),
        })
        .unwrap();
    let pairs = xobject_names(&doc, res);
    assert_eq!(names(&pairs).iter().map(|(n, _)| n.as_str()).collect::<Vec<_>>(), vec!["Im1"]);
}
