use pdfx::pdf::graph::{find_object, keep_objects, key_of, reachable_ids};
use pdfx::pdf::images::{
    color_components, decode_image, dedup_plan, get_object, hash_bytes, is_image, leaf_filter, raw_to_rgb,
    remap_object, should_skip, DecodedImage,
};
use pdfx::pdf::object::{dict_get, dict_remove, dict_set, PdfDict, PdfDoc, PdfObject, PdfStream};
use std::collections::HashSet;

fn name(s: &str) -> PdfObject {
    PdfObject::Name(s.as_bytes().to_vec())
}

fn dict(pairs: Vec<(&str, PdfObject)>) -> PdfDict {
    PdfDict { entries: pairs.into_iter().map(|(k, v)| (k.as_bytes().to_vec(), v)).collect() }
}

fn stream(d: PdfDict, content: Vec<u8>) -> PdfStream {
    PdfStream { dict: d, content, allows_compression: true, start_position: None }
}

fn image_dict(w: i64, h: i64, cs: &str) -> PdfDict {
    dict(vec![
        ("Type", name("XObject")),
        ("Subtype", name("Image")),
        ("Width", PdfObject::Integer(w)),
        ("Height", PdfObject::Integer(h)),
        ("ColorSpace", name(cs)),
        ("BitsPerComponent", PdfObject::Integer(8)),
    ])
}

fn doc() -> PdfDoc {
    // 1: catalog -> 2 pages -> 3 page -> 4 content; 5 orphan; 6 info; 7 referenced only by 5.
    let objects = vec![
        ((1u32, 0u16), PdfObject::Dictionary(dict(vec![("Type", name("Catalog")), ("Pages", PdfObject::Reference((2, 0)))]))),
        ((2, 0), PdfObject::Dictionary(dict(vec![("Kids", PdfObject::Array(vec![PdfObject::Reference((3, 0))]))]))),
        ((3, 0), PdfObject::Dictionary(dict(vec![("Parent", PdfObject::Reference((2, 0))), ("Contents", PdfObject::Reference((4, 0)))]))),
        ((4, 0), PdfObject::Stream(stream(PdfDict { entries: vec![] }, b"BT ET".to_vec()))),
        ((5, 0), PdfObject::Dictionary(dict(vec![("Other", PdfObject::Reference((7, 0)))]))),
        ((6, 0), PdfObject::Dictionary(dict(vec![("Producer", PdfObject::Str(b"x".to_vec(), false))]))),
        ((7, 0), PdfObject::Integer(3)),
    ];
    PdfDoc {
        version: b"1.4".to_vec(),
        binary_mark: vec![],
        max_id: 7,
        max_bookmark_id: 0,
        trailer: dict(vec![("Root", PdfObject::Reference((1, 0))), ("Info", PdfObject::Reference((6, 0)))]),
        objects,
    }
}

#[test]
fn dictionary_get_set_remove() {
    let mut d = dict(vec![("A", PdfObject::Integer(1)), ("B", PdfObject::Integer(2))]);
    assert!(matches!(dict_get(&d, b"B"), Some(PdfObject::Integer(2))));
    assert!(dict_get(&d, b"C").is_none());
    dict_set(&mut d, b"A", PdfObject::Integer(10));
    assert_eq!(d.entries.len(), 2);
    assert!(matches!(dict_get(&d, b"A"), Some(PdfObject::Integer(10))));
    dict_set(&mut d, b"C", PdfObject::Null);
    assert_eq!(d.entries.len(), 3);
    assert_eq!(d.entries[2].0, b"C".to_vec());
    dict_remove(&mut d, b"A");
    assert!(dict_get(&d, b"A").is_none());
    assert_eq!(d.entries.len(), 2);
    dict_remove(&mut d, b"Z");
    assert_eq!(d.entries.len(), 2);
}

#[test]
fn object_ids_and_lookup() {
    let d = doc();
    assert_eq!(key_of((1, 0)), 65536);
    assert_eq!(key_of((3, 2)), 3 * 65536 + 2);
    assert_eq!(find_object(&d.objects, (4, 0)), Some(3));
    assert_eq!(find_object(&d.objects, (4, 1)), None);
    assert_eq!(find_object(&d.objects, (9, 0)), None);
}

#[test]
fn reachability_from_root_and_info() {
    let d = doc();
    let seen = reachable_ids(&d);
    let mut want: HashSet<u64> = HashSet::new();
    for id in [1u32, 2, 3, 4, 6] {
        want.insert(key_of((id, 0)));
    }
    assert_eq!(seen, want);
    let kept = keep_objects(d.objects, &seen);
    let ids: Vec<u32> = kept.iter().map(|(id, _)| id.0).collect();
    assert_eq!(ids, vec![1, 2, 3, 4, 6]);
}

#[test]
fn get_object_follows_references() {
    let objects = vec![
        ((1u32, 0u16), PdfObject::Reference((2, 0))),
        ((2, 0), PdfObject::Reference((3, 0))),
        ((3, 0), PdfObject::Integer(42)),
        ((4, 0), PdfObject::Reference((4, 0))),
    ];
    assert_eq!(get_object(&objects, (1, 0)), Some(2));
    assert_eq!(get_object(&objects, (3, 0)), Some(2));
    assert_eq!(get_object(&objects, (5, 0)), None);
    assert_eq!(get_object(&objects, (4, 0)), None);
}

#[test]
fn image_dictionaries() {
    let d = image_dict(4, 4, "DeviceRGB");
    assert!(is_image(&d));
    assert_eq!(color_components(&d), Some(3));
    assert_eq!(color_components(&image_dict(4, 4, "DeviceGray")), Some(1));
    assert_eq!(color_components(&image_dict(4, 4, "DeviceCMYK")), None);
    assert!(!is_image(&dict(vec![("Type", name("Font"))])));
    assert!(!should_skip(&d, false));
    assert!(should_skip(&d, true));
    let mut masked = image_dict(4, 4, "DeviceRGB");
    masked.entries.push((b"ImageMask".to_vec(), PdfObject::Boolean(true)));
    assert!(should_skip(&masked, false));
}

#[test]
fn leaf_filter_is_the_last_of_a_chain() {
    let d = dict(vec![("Filter", PdfObject::Array(vec![name("ASCII85Decode"), name("FlateDecode")]))]);
    assert_eq!(leaf_filter(&d), Some(b"FlateDecode".to_vec()));
    let d = dict(vec![("Filter", name("DCTDecode"))]);
    assert_eq!(leaf_filter(&d), Some(b"DCTDecode".to_vec()));
    assert_eq!(leaf_filter(&dict(vec![])), None);
}

#[test]
fn raw_images_to_rgb() {
    let rgb: Vec<u8> = (0..12).collect();
    let s = stream(image_dict(2, 2, "DeviceRGB"), rgb.clone());
    assert_eq!(raw_to_rgb(&s, 2, 2), Some(rgb));
    let s = stream(image_dict(2, 1, "DeviceGray"), vec![7, 9]);
    assert_eq!(raw_to_rgb(&s, 2, 1), Some(vec![7, 7, 7, 9, 9, 9]));
    let s = stream(image_dict(2, 2, "DeviceRGB"), vec![1, 2, 3]);
    assert_eq!(raw_to_rgb(&s, 2, 2), None);
}

#[test]
fn decoded_image_and_fingerprint() {
    let rgb: Vec<u8> = (0..12).collect();
    let s = stream(image_dict(2, 2, "DeviceRGB"), rgb.clone());
    let img = decode_image(&s, false);
    assert_eq!((img.width, img.height), (2, 2));
    assert_eq!(img.rgb, rgb);
    assert!(img.skip_reason.is_none());
    assert_eq!(img.original_len, 12);
    let bad = decode_image(&stream(image_dict(0, 2, "DeviceRGB"), vec![]), false);
    assert!(bad.skip_reason.is_some());
    assert_eq!(hash_bytes(b"abc"), hash_bytes(b"abc"));
    assert_ne!(hash_bytes(b"abc"), hash_bytes(b"abd"));
    assert_ne!(hash_bytes(b""), hash_bytes(b"\0"));
}

fn decoded(id: u32, rgb: Vec<u8>, skip: bool) -> ((u32, u16), DecodedImage) {
    let fp = hash_bytes(&rgb);
    (
        (id, 0),
        DecodedImage {
            width: 1,
            height: 1,
            rgb,
            skip_reason: if skip { Some("skipped") } else { None },
            original_len: 3,
            fingerprint: fp,
        },
    )
}

#[test]
fn dedup_sends_copies_to_the_first() {
    let images = vec![
        decoded(2, vec![1, 2, 3], false),
        decoded(5, vec![9, 9, 9], false),
        decoded(7, vec![1, 2, 3], false),
        decoded(8, vec![1, 2, 3], true),
        decoded(9, vec![9, 9, 9], false),
    ];
    let (remap, skipped) = dedup_plan(&images);
    assert_eq!(remap, vec![((7, 0), (2, 0)), ((9, 0), (5, 0))]);
    assert_eq!(skipped, 1);
}

#[test]
fn remapping_rewrites_nested_references() {
    let o = PdfObject::Array(vec![
        PdfObject::Reference((7, 0)),
        PdfObject::Dictionary(dict(vec![("X", PdfObject::Reference((7, 0))), ("Y", PdfObject::Reference((3, 0)))])),
    ]);
    let r = remap_object(o, &vec![((7, 0), (2, 0))]);
    let PdfObject::Array(items) = r else { panic!("array") };
    assert!(matches!(items[0], PdfObject::Reference((2, 0))));
    let PdfObject::Dictionary(d) = &items[1] else { panic!("dict") };
    assert!(matches!(dict_get(d, b"X"), Some(PdfObject::Reference((2, 0)))));
    assert!(matches!(dict_get(d, b"Y"), Some(PdfObject::Reference((3, 0)))));
}

#[test]
fn already_flate_streams_stay_put() {
    let plain = dict(vec![]);
    assert!(pdfx::pdf::structure::flate_eligible(&plain));
    assert!(!pdfx::pdf::structure::flate_eligible(&dict(vec![("Filter", name("FlateDecode"))])));
    assert!(!pdfx::pdf::structure::flate_eligible(&dict(vec![("Filter", PdfObject::Array(vec![name("FlateDecode")]))])));
    assert!(!pdfx::pdf::structure::flate_eligible(&dict(vec![("Filter", PdfObject::Array(vec![name("ASCII85Decode"), name("FlateDecode")]))])));
    assert!(pdfx::pdf::structure::flate_eligible(&dict(vec![("Filter", PdfObject::Array(vec![name("ASCIIHexDecode")]))])));
    assert!(pdfx::pdf::structure::flate_eligible(&dict(vec![("Filter", name("ASCIIHexDecode"))])));

    // a stream behind [/FlateDecode] keeps its bytes; a long plain one is re-deflated
    let flate_array = stream(dict(vec![("Filter", PdfObject::Array(vec![name("FlateDecode")]))]), vec![0x78, 0x9c, 1, 2, 3]);
    let text = b"BT /F1 12 Tf (aaaaaaaaaaaaaaaaaaaaaaaaaaaaaaaa) Tj ET\n".repeat(20);
    let mut objects = vec![
        ((1u32, 0u16), PdfObject::Stream(flate_array)),
        ((2, 0), PdfObject::Stream(stream(dict(vec![]), text.clone()))),
    ];
    let n = pdfx::pdf::structure::reflate_streams(&mut objects);
    assert_eq!(n, 1);
    match &objects[0].1 {
        PdfObject::Stream(s) => assert_eq!(s.content, vec![0x78, 0x9c, 1, 2, 3]),
        _ => panic!("stream"),
    }
    match &objects[1].1 {
        PdfObject::Stream(s) => assert!(s.content.len() < text.len()),
        _ => panic!("stream"),
    }
}

#[test]
fn dedup_needs_identical_pixels_not_just_the_fingerprint() {
    let (a_id, a) = decoded(2, vec![1, 2, 3], false);
    let (b_id, mut b) = decoded(5, vec![4, 5, 6], false);
    // a forged fingerprint collision: the pixels differ, so nothing is merged
    b.fingerprint = a.fingerprint;
    let (remap, skipped) = dedup_plan(&vec![(a_id, a), (b_id, b)]);
    assert!(remap.is_empty());
    assert_eq!(skipped, 0);
    // same pixels but a different size: not merged either
    let (c_id, c) = decoded(3, vec![1, 2, 3, 1, 2, 3], false);
    let (d_id, mut d) = decoded(4, vec![1, 2, 3, 1, 2, 3], false);
    d.width = 2;
    d.height = 1;
    let (remap, _) = dedup_plan(&vec![(c_id, c), (d_id, d)]);
    assert!(remap.is_empty());
}
