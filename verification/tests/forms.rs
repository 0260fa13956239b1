use pdfx::pdf::acroform::{add_object, append_annots, upsert_acroform};
use pdfx::pdf::fields::{existing_field_names, pdf_text, pdf_to_string};
use pdfx::pdf::object::dict_get;
use pdfx::pdf::PdfError;
use pdfx::pdf::forms::{name_slots, FieldKind};
use pdfx::pdf::object::{PdfDict, PdfDoc, PdfObject};

const TEXT: FieldKind = FieldKind::Text;
const CHECK: FieldKind = FieldKind::Checkbox;

fn run(kinds: &[FieldKind], captions: &[&str], existing: &[&str]) -> Vec<String> {
    let kinds = kinds.to_vec();
    let mut names: Vec<String> = captions.iter().map(|s| s.to_string()).collect();
    let existing: Vec<String> = existing.iter().map(|s| s.to_string()).collect();
    name_slots(&kinds, &mut names, &existing);
    names
}

#[test]
fn kind_names() {
    assert_eq!(FieldKind::Text.as_str(), "text");
    assert_eq!(FieldKind::Checkbox.as_str(), "checkbox");
}

#[test]
fn free_captions_are_kept() {
    let names = run(&[FieldKind::Text, FieldKind::Checkbox], &["Name", "Agree"], &[]);
    assert_eq!(names, vec!["Name", "Agree"]);
}

#[test]
fn slots_without_caption_are_numbered_per_kind() {
    let names = run(&[TEXT, CHECK, TEXT, CHECK], &["", "", "", ""], &[]);
    assert_eq!(names, vec!["Text1", "Check1", "Text2", "Check2"]);
}

#[test]
fn taken_names_are_skipped() {
    let names = run(&[TEXT, TEXT, TEXT], &["", "Name", "Name"], &["Text1", "Name", "Name_2"]);
    assert_eq!(names, vec!["Text2", "Name_3", "Name_4"]);
}

#[test]
fn caption_that_looks_automatic_is_respected() {
    let names = run(&[TEXT, TEXT], &["Text1", ""], &[]);
    assert_eq!(names, vec!["Text1", "Text2"]);
    let names = run(&[TEXT, TEXT], &["", "Text1"], &[]);
    assert_eq!(names, vec!["Text1", "Text1_2"]);
}

#[test]
fn second_pass_keeps_distinct_names() {
    let first = run(&[TEXT, CHECK, TEXT], &["City", "", ""], &[]);
    let existing: Vec<&str> = first.iter().map(|s| s.as_str()).collect();
    let second = run(&[TEXT, CHECK, TEXT], &["City", "", ""], &existing);
    assert_eq!(second, vec!["City_2", "Check2", "Text2"]);
    for n in &second {
        assert!(!first.contains(n));
    }
}

#[test]
fn unicode_captions() {
    let names = run(&[FieldKind::Text, FieldKind::Text], &["Größe", "Größe"], &[]);
    assert_eq!(names, vec!["Größe", "Größe_2"]);
}

fn dict(pairs: Vec<(&str, PdfObject)>) -> PdfDict {
    PdfDict { entries: pairs.into_iter().map(|(k, v)| (k.as_bytes().to_vec(), v)).collect() }
}

fn text(s: &str) -> PdfObject {
    PdfObject::Str(s.as_bytes().to_vec(), false)
}

fn form_doc(acroform: PdfObject) -> PdfDoc {
    let objects = vec![
        ((1u32, 0u16), PdfObject::Dictionary(dict(vec![("Type", PdfObject::Name(b"Catalog".to_vec())), ("AcroForm", acroform)]))),
        ((2, 0), PdfObject::Dictionary(dict(vec![("T", text("Name")), ("FT", PdfObject::Name(b"Tx".to_vec()))]))),
        ((3, 0), PdfObject::Dictionary(dict(vec![("T", text("Address")), ("Kids", PdfObject::Array(vec![PdfObject::Reference((4, 0))]))]))),
        ((4, 0), PdfObject::Dictionary(dict(vec![("T", text("Street"))]))),
        ((5, 0), PdfObject::Dictionary(dict(vec![("T", text("")), ("Kids", PdfObject::Array(vec![PdfObject::Reference((6, 0))]))]))),
        ((6, 0), PdfObject::Reference((7, 0))),
        ((7, 0), PdfObject::Dictionary(dict(vec![("T", PdfObject::Str(vec![0xFE, 0xFF, 0x00, 0x5A, 0x00, 0x69, 0x00, 0x70], true))]))),
    ];
    PdfDoc {
        version: b"1.4".to_vec(),
        binary_mark: vec![],
        max_id: 7,
        max_bookmark_id: 0,
        trailer: dict(vec![("Root", PdfObject::Reference((1, 0)))]),
        objects,
    }
}

#[test]
fn pdf_strings_to_text() {
    assert_eq!(pdf_to_string(b"Name"), "Name");
    assert_eq!(pdf_to_string(&[0x47, 0x72, 0xF6, 0xDF, 0x65]), "Größe");
    assert_eq!(pdf_to_string(&[0xFE, 0xFF, 0x00, 0x41, 0x26, 0x10]), "A\u{2610}");
    assert_eq!(pdf_to_string(&[0xFE, 0xFF, 0x00, 0x41, 0x00]), "A");
    assert_eq!(pdf_to_string(&[0xFE, 0xFF, 0xD8, 0x00]), "\u{FFFD}");
    assert_eq!(pdf_to_string(&[]), "");
}

#[test]
fn existing_names_follow_fields_and_kids() {
    let acro = PdfObject::Dictionary(dict(vec![(
        "Fields",
        PdfObject::Array(vec![PdfObject::Reference((2, 0)), PdfObject::Reference((3, 0)), PdfObject::Reference((5, 0))]),
    )]));
    let mut names = existing_field_names(&form_doc(acro));
    names.sort();
    assert_eq!(names, vec!["Address", "Name", "Street", "Zip"]);
}

#[test]
fn no_acroform_no_names() {
    let doc = form_doc(PdfObject::Null);
    assert!(existing_field_names(&doc).is_empty());
    let mut doc = form_doc(PdfObject::Null);
    doc.trailer = dict(vec![]);
    assert!(existing_field_names(&doc).is_empty());
}

#[test]
fn nesting_deeper_than_sixteen_is_not_read() {
    // A chain of /Kids arrays 20 levels deep, named at the bottom.
    let mut o = PdfObject::Dictionary(dict(vec![("T", text("Deep"))]));
    for _ in 0..20 {
        o = PdfObject::Array(vec![o]);
    }
    assert!(existing_field_names(&form_doc(PdfObject::Dictionary(dict(vec![("Fields", o)])))).is_empty());
    let mut o = PdfObject::Dictionary(dict(vec![("T", text("Shallow"))]));
    for _ in 0..10 {
        o = PdfObject::Array(vec![o]);
    }
    assert_eq!(existing_field_names(&form_doc(PdfObject::Dictionary(dict(vec![("Fields", o)])))), vec!["Shallow"]);
}

#[test]
fn text_strings_for_names() {
    assert_eq!(pdf_text("Name"), b"Name".to_vec());
    assert_eq!(pdf_text("Größe"), vec![0x47, 0x72, 0xF6, 0xDF, 0x65]);
    assert_eq!(pdf_text("A\u{2610}"), vec![0xFE, 0xFF, 0x00, 0x41, 0x26, 0x10]);
    assert_eq!(pdf_text("\u{1F600}"), vec![0xFE, 0xFF, 0xD8, 0x3D, 0xDE, 0x00]);
    assert_eq!(pdf_text(""), Vec::<u8>::new());
    for s in ["Name", "Größe", "A\u{2610} b", "\u{1F600}x", "/Helv 10 Tf 0 g"] {
        assert_eq!(pdf_to_string(&pdf_text(s)), s);
    }
    // narrow text that begins with the UTF-16 mark does not read back as written
    assert_eq!(pdf_text("\u{FE}\u{FF}A"), vec![0xFE, 0xFF, 0x41]);
    assert_eq!(pdf_to_string(&pdf_text("\u{FE}\u{FF}A")), "");
}

fn page_doc(annots: Option<PdfObject>, acroform: Option<PdfObject>) -> PdfDoc {
    let mut page = vec![("Type", PdfObject::Name(b"Page".to_vec()))];
    if let Some(a) = annots {
        page.push(("Annots", a));
    }
    let mut catalog = vec![("Type", PdfObject::Name(b"Catalog".to_vec())), ("Pages", PdfObject::Reference((2, 0)))];
    if let Some(a) = acroform {
        catalog.push(("AcroForm", a));
    }
    PdfDoc {
        version: b"1.4".to_vec(),
        binary_mark: vec![],
        max_id: 5,
        max_bookmark_id: 0,
        trailer: dict(vec![("Root", PdfObject::Reference((1, 0)))]),
        objects: vec![
            ((1u32, 0u16), PdfObject::Dictionary(dict(catalog))),
            ((2, 0), PdfObject::Dictionary(dict(vec![("Kids", PdfObject::Array(vec![PdfObject::Reference((3, 0))]))]))),
            ((3, 0), PdfObject::Dictionary(dict(page))),
            ((4, 0), PdfObject::Array(vec![PdfObject::Reference((2, 0))])),
            ((5, 0), PdfObject::Dictionary(dict(vec![("Fields", PdfObject::Array(vec![PdfObject::Reference((2, 0))]))]))),
        ],
    }
}

fn object<'a>(doc: &'a PdfDoc, id: (u32, u16)) -> &'a PdfObject {
    &doc.objects.iter().find(|(i, _)| *i == id).expect("object").1
}

fn refs(o: Option<&PdfObject>) -> Vec<(u32, u16)> {
    match o {
        Some(PdfObject::Array(items)) => items
            .iter()
            .map(|x| match x {
                PdfObject::Reference(id) => *id,
                _ => panic!("not a reference"),
            })
            .collect(),
        _ => panic!("not an array"),
    }
}

#[test]
fn objects_are_added_after_the_last_number() {
    let mut doc = page_doc(None, None);
    let id = add_object(&mut doc, PdfObject::Integer(7));
    assert_eq!(id, (6, 0));
    assert_eq!(doc.max_id, 6);
    assert!(matches!(object(&doc, (6, 0)), PdfObject::Integer(7)));
    let ids: Vec<(u32, u16)> = doc.objects.iter().map(|(i, _)| *i).collect();
    assert_eq!(ids, vec![(1, 0), (2, 0), (3, 0), (4, 0), (5, 0), (6, 0)]);
}

#[test]
fn annotations_are_appended_to_the_page() {
    let mut doc = page_doc(None, None);
    append_annots(&mut doc, (3, 0), &vec![(9, 0), (10, 0)]);
    let PdfObject::Dictionary(page) = object(&doc, (3, 0)) else { panic!("page") };
    assert_eq!(refs(dict_get(page, b"Annots")), vec![(9, 0), (10, 0)]);

    // An /Annots reference to an array is followed; the list comes back inline.
    let mut doc = page_doc(Some(PdfObject::Reference((4, 0))), None);
    append_annots(&mut doc, (3, 0), &vec![(9, 0)]);
    let PdfObject::Dictionary(page) = object(&doc, (3, 0)) else { panic!("page") };
    assert_eq!(refs(dict_get(page, b"Annots")), vec![(2, 0), (9, 0)]);

    // Not a dictionary: nothing changes.
    let mut doc = page_doc(None, None);
    append_annots(&mut doc, (4, 0), &vec![(9, 0)]);
    assert_eq!(refs(Some(object(&doc, (4, 0)))), vec![(2, 0)]);
}

#[test]
fn acroform_is_created_when_missing() {
    let mut doc = page_doc(None, None);
    upsert_acroform(&mut doc, &vec![(9, 0), (10, 0)]).unwrap();
    assert_eq!(doc.max_id, 7);
    let PdfObject::Dictionary(font) = object(&doc, (6, 0)) else { panic!("font") };
    assert!(matches!(dict_get(font, b"BaseFont"), Some(PdfObject::Name(n)) if n.as_slice() == b"Helvetica"));
    let PdfObject::Dictionary(catalog) = object(&doc, (1, 0)) else { panic!("catalog") };
    assert!(matches!(dict_get(catalog, b"AcroForm"), Some(PdfObject::Reference((7, 0)))));
    let PdfObject::Dictionary(acro) = object(&doc, (7, 0)) else { panic!("acroform") };
    assert_eq!(refs(dict_get(acro, b"Fields")), vec![(9, 0), (10, 0)]);
    assert!(matches!(dict_get(acro, b"NeedAppearances"), Some(PdfObject::Boolean(true))));
    assert!(matches!(dict_get(acro, b"DA"), Some(PdfObject::Str(s, false)) if s.as_slice() == b"/Helv 10 Tf 0 g"));
    let Some(PdfObject::Dictionary(dr)) = dict_get(acro, b"DR") else { panic!("DR") };
    let Some(PdfObject::Dictionary(fonts)) = dict_get(dr, b"Font") else { panic!("fonts") };
    assert!(matches!(dict_get(fonts, b"Helv"), Some(PdfObject::Reference((6, 0)))));
}

#[test]
fn existing_acroform_keeps_its_fields() {
    let mut doc = page_doc(None, Some(PdfObject::Reference((5, 0))));
    upsert_acroform(&mut doc, &vec![(9, 0)]).unwrap();
    assert_eq!(doc.max_id, 6);
    let PdfObject::Dictionary(acro) = object(&doc, (5, 0)) else { panic!("acroform") };
    assert_eq!(refs(dict_get(acro, b"Fields")), vec![(2, 0), (9, 0)]);
    let PdfObject::Dictionary(catalog) = object(&doc, (1, 0)) else { panic!("catalog") };
    assert!(matches!(dict_get(catalog, b"AcroForm"), Some(PdfObject::Reference((5, 0)))));
}

#[test]
fn acroform_reference_to_a_non_dictionary_is_refused() {
    let mut doc = page_doc(None, Some(PdfObject::Reference((4, 0))));
    assert!(matches!(upsert_acroform(&mut doc, &vec![(9, 0)]), Err(PdfError::Invalid(_))));
}

#[test]
fn fields_are_attached_page_by_page_in_first_seen_order() {
    let mut doc = page_doc(None, Some(PdfObject::Reference((5, 0))));
    let pages = vec![(3, 0), (2, 0), (3, 0)];
    let ids = vec![(9, 0), (10, 0), (11, 0)];
    let all = pdfx::pdf::attach::attach_fields(&mut doc, &pages, &ids).unwrap();
    assert_eq!(all, vec![(9, 0), (11, 0), (10, 0)]);
    let PdfObject::Dictionary(page) = object(&doc, (3, 0)) else { panic!("page") };
    assert_eq!(refs(dict_get(page, b"Annots")), vec![(9, 0), (11, 0)]);
    let PdfObject::Dictionary(other) = object(&doc, (2, 0)) else { panic!("node") };
    assert_eq!(refs(dict_get(other, b"Annots")), vec![(10, 0)]);
    let PdfObject::Dictionary(acro) = object(&doc, (5, 0)) else { panic!("acroform") };
    assert_eq!(refs(dict_get(acro, b"Fields")), vec![(2, 0), (9, 0), (11, 0), (10, 0)]);
}

#[test]
fn attaching_fails_like_the_form_update() {
    let mut doc = page_doc(None, Some(PdfObject::Reference((4, 0))));
    let r = pdfx::pdf::attach::attach_fields(&mut doc, &vec![(3, 0)], &vec![(9, 0)]);
    assert!(matches!(r, Err(PdfError::Invalid(_))));
    // the page got its annotation before the form update failed
    let PdfObject::Dictionary(page) = object(&doc, (3, 0)) else { panic!("page") };
    assert_eq!(refs(dict_get(page, b"Annots")), vec![(9, 0)]);
}

#[test]
fn notes_of_the_form_pass() {
    assert_eq!(pdfx::pdf::attach::fields_note(&vec![TEXT, CHECK, TEXT]), "fields=3 text=2 checkbox=1");
    assert_eq!(pdfx::pdf::attach::fields_note(&vec![]), "fields=0 text=0 checkbox=0");
    assert_eq!(pdfx::pdf::attach::fields_note(&vec![CHECK; 12]), "fields=12 text=0 checkbox=12");
    assert_eq!(pdfx::pdf::attach::no_slots_note(), "no empty slots; kept original");
}
