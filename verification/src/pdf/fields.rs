//! Names of the form fields a document has already.

use vstd::prelude::*;
use vstd::string::StrSliceExecFns;
use super::object::{PdfObject, PdfDict, PdfDoc, ObjView, obj_view, dview, objects_view, entry_value,
    dict_get, lemma_list_view, lemma_objects_view, DocView, doc_view};
use super::images::{deref_spec, get_object};
use super::graph::view_ids_sorted;
use super::names::{T, KIDS, FIELDS, ACROFORM, ROOT};
use super::object::object_at;

verus! {

/// Whether the unit is a high (leading) surrogate.
pub open spec fn high_surrogate(u: u16) -> bool {
    0xD800 <= u <= 0xDBFF
}

/// Whether the unit is a low (trailing) surrogate.
pub open spec fn low_surrogate(u: u16) -> bool {
    0xDC00 <= u <= 0xDFFF
}

/// UTF-16 decoding as `String::from_utf16_lossy` does it: a unit outside the surrogates is
/// its own character, a high surrogate followed by a low one is one supplementary
/// character, and every other surrogate is U+FFFD.
pub open spec fn utf16_lossy(units: Seq<u16>) -> Seq<char>
    decreases units.len(),
{
    if units.len() == 0 {
        Seq::empty()
    } else {
        let a = units[0];
        if !high_surrogate(a) && !low_surrogate(a) {
            seq![a as char] + utf16_lossy(units.drop_first())
        } else if high_surrogate(a) && units.len() >= 2 && low_surrogate(units[1]) {
            seq![((0x10000 + (a - 0xD800) * 1024 + (units[1] - 0xDC00)) as u32) as char] + utf16_lossy(units.subrange(2, units.len() as int))
        } else {
            seq!['\u{FFFD}'] + utf16_lossy(units.drop_first())
        }
    }
}

/// Big-endian 16-bit units of the bytes (a trailing odd byte is dropped).
pub open spec fn be_units(b: Seq<u8>) -> Seq<u16> {
    Seq::new(b.len() / 2, |i: int| (b[2 * i] * 256 + b[2 * i + 1]) as u16)
}

/// The text of a PDF string: UTF-16BE after a `FE FF` mark, else one character per byte.
pub open spec fn pdf_string_text(b: Seq<u8>) -> Seq<char> {
    if b.len() >= 2 && b[0] == 0xFE && b[1] == 0xFF {
        utf16_lossy(be_units(b.subrange(2, b.len() as int)))
    } else {
        b.map_values(|c: u8| c as char)
    }
}

/// The field name a dictionary's `/T` gives, when it is a non-empty string.
pub open spec fn own_name(e: Seq<(Seq<u8>, ObjView)>) -> Set<Seq<char>> {
    match entry_value(e, T@) {
        Some(ObjView::Str(b, _)) => if pdf_string_text(b).len() > 0 { set![pdf_string_text(b)] } else { Set::empty() },
        _ => Set::empty(),
    }
}

/// The names in a field dictionary, its `/Kids` and its `/Fields`.
pub open spec fn dict_names(ov: Seq<(super::object::ObjId, ObjView)>, e: Seq<(Seq<u8>, ObjView)>, depth: nat) -> Set<Seq<char>>
    decreases 17 - depth, 0nat, 0nat,
{
    own_name(e)
        + (match entry_value(e, KIDS@) { Some(k) => if depth + 1 <= 17 { names_in(ov, k, depth + 1) } else { Set::empty() }, None => Set::empty() })
        + (match entry_value(e, FIELDS@) { Some(f) => if depth + 1 <= 17 { names_in(ov, f, depth + 1) } else { Set::empty() }, None => Set::empty() })
}

/// The names found from each item of a list, one level deeper.
pub open spec fn names_list(ov: Seq<(super::object::ObjId, ObjView)>, items: Seq<ObjView>, depth: nat) -> Set<Seq<char>>
    decreases 17 - depth, 0nat, items.len(),
{
    if items.len() == 0 || depth > 16 {
        Set::empty()
    } else {
        names_list(ov, items.drop_last(), depth) + names_in(ov, items.last(), depth + 1)
    }
}

/// Field names found from a value at a nesting depth: arrays are walked, references
/// followed to dictionaries, and nothing deeper than 16 levels is read.
pub open spec fn names_in(ov: Seq<(super::object::ObjId, ObjView)>, o: ObjView, depth: nat) -> Set<Seq<char>>
    decreases 17 - depth, 1nat, 0nat,
{
    if depth > 16 {
        Set::empty()
    } else {
        match o {
            ObjView::Array(items) => names_list(ov, items, depth),
            ObjView::Reference(id) => match deref_spec(ov, object_at(ov, id), 0) {
                Some(ObjView::Dictionary(e)) => dict_names(ov, e, depth),
                _ => Set::empty(),
            },
            ObjView::Dictionary(e) => dict_names(ov, e, depth),
            _ => Set::empty(),
        }
    }
}

/// `String::from_utf16_lossy`: the text of UTF-16 code units, each unpaired surrogate
/// replaced by U+FFFD (see `utf16_lossy`).
#[verifier::external_body]
fn utf16_string(units: &[u16]) -> (s: String)
    ensures
        s@ == utf16_lossy(units@),
{
    String::from_utf16_lossy(units)
}

/// `String::push`: the character appended.
#[verifier::external_body]
pub(crate) fn push_char(s: &mut String, c: char)
    ensures
        final(s)@ == old(s)@.push(c),
{
    s.push(c)
}

/// The text of a PDF string (see `pdf_string_text`).
pub fn pdf_to_string(bytes: &[u8]) -> (s: String)
    ensures
        s@ == pdf_string_text(bytes@),
{
    if bytes.len() >= 2 && bytes[0] == 0xFE && bytes[1] == 0xFF {
        let ghost rest = bytes@.subrange(2, bytes@.len() as int);
        let mut units: Vec<u16> = Vec::new();
        let mut i: usize = 2;
        while i + 1 < bytes.len()
            invariant
                2 <= i <= bytes.len(),
                (i - 2) % 2 == 0,
                rest == bytes@.subrange(2, bytes@.len() as int),
                units@.len() == (i - 2) / 2,
                forall|q: int| 0 <= q < units@.len() ==> #[trigger] units@[q] == be_units(rest)[q],
                i + 1 >= bytes.len() ==> units@.len() == rest.len() / 2,
            decreases bytes.len() - i,
        {
            let u: u16 = (bytes[i] as u16) * 256 + bytes[i + 1] as u16;
            proof {
                assert(be_units(rest)[units@.len() as int] == u);
            }
            units.push(u);
            i = i + 2;
        }
        proof {
            assert(units@ =~= be_units(rest));
        }
        return utf16_string(units.as_slice());
    }
    let mut s = String::new();
    let mut i: usize = 0;
    while i < bytes.len()
        invariant
            i <= bytes.len(),
            s@ == bytes@.take(i as int).map_values(|c: u8| c as char),
        decreases bytes.len() - i,
    {
        push_char(&mut s, bytes[i] as char);
        i = i + 1;
        proof {
            assert(s@ =~= bytes@.take(i as int).map_values(|c: u8| c as char));
        }
    }
    proof {
        assert(bytes@.take(i as int) =~= bytes@);
    }
    s
}

/// The texts of a list of strings, as a set.
pub open spec fn name_set(s: Seq<String>) -> Set<Seq<char>> {
    Set::new(|x: Seq<char>| exists|k: int| 0 <= k < s.len() && (#[trigger] s[k])@ == x)
}

proof fn lemma_name_set_push(s: Seq<String>, x: String)
    ensures
        name_set(s.push(x)) == name_set(s).insert(x@),
{
    assert forall|y: Seq<char>| name_set(s.push(x)).contains(y) <==> name_set(s).insert(x@).contains(y) by {
        if name_set(s.push(x)).contains(y) {
            let k = choose|k: int| 0 <= k < s.push(x).len() && (#[trigger] s.push(x)[k])@ == y;
            if k < s.len() {
                assert(s[k]@ == y);
            }
        }
        if name_set(s).contains(y) {
            let k = choose|k: int| 0 <= k < s.len() && (#[trigger] s[k])@ == y;
            assert(s.push(x)[k] == s[k]);
        }
        if y == x@ {
            assert(s.push(x)[s.len() as int] == x);
        }
    }
    assert(name_set(s.push(x)) =~= name_set(s).insert(x@));
}

/// Add the names found from `obj` at `depth` (see `names_in`).
fn collect_names(objects: &Vec<(super::object::ObjId, PdfObject)>, obj: &PdfObject, names: &mut Vec<String>, depth: u32)
    requires
        view_ids_sorted(objects_view(objects@)),
        depth <= 17,
    ensures
        name_set(final(names)@) == name_set(old(names)@) + names_in(objects_view(objects@), obj_view(*obj), depth as nat),
    decreases 17 - depth, 1nat, 0nat,
{
    let ghost ov = objects_view(objects@);
    if depth > 16 {
        proof {
            assert(name_set(names@) =~= name_set(names@) + names_in(ov, obj_view(*obj), depth as nat));
        }
        return;
    }
    match obj {
        PdfObject::Array(items) => {
            proof {
                lemma_list_view(items@);
            }
            let ghost start = name_set(names@);
            let ghost iv = super::object::list_view(items@);
            let mut j: usize = 0;
            proof {
                assert(iv.take(0) =~= Seq::<ObjView>::empty());
                assert(name_set(names@) =~= start + names_list(ov, iv.take(0), depth as nat));
            }
            while j < items.len()
                invariant
                    j <= items.len(),
                    depth <= 16,
                    view_ids_sorted(objects_view(objects@)),
                    ov == objects_view(objects@),
                    iv == super::object::list_view(items@),
                    iv.len() == items@.len(),
                    forall|q: int| 0 <= q < items@.len() ==> #[trigger] iv[q] == obj_view(items@[q]),
                    name_set(names@) == start + names_list(ov, iv.take(j as int), depth as nat),
                decreases items.len() - j,
            {
                collect_names(objects, &items[j], names, depth + 1);
                proof {
                    let t = iv.take(j as int + 1);
                    assert(t.drop_last() =~= iv.take(j as int));
                    assert(t.last() == iv[j as int]);
                    assert(name_set(names@) =~= start + names_list(ov, iv.take(j as int + 1), depth as nat));
                }
                j = j + 1;
            }
            proof {
                assert(iv.take(iv.len() as int) =~= iv);
                assert(obj_view(*obj) == ObjView::Array(iv));
                assert(name_set(names@) =~= start + names_in(ov, obj_view(*obj), depth as nat));
            }
        },
        PdfObject::Reference(id) => {
            match get_object(objects, *id) {
                Some(k) => {
                    match &objects[k].1 {
                        PdfObject::Dictionary(d) => {
                            proof {
                                lemma_objects_view(objects@);
                            }
                            dict_names_into(objects, d, names, depth);
                        },
                        _ => {
                            proof {
                                lemma_objects_view(objects@);
                                assert(name_set(names@) =~= name_set(names@) + names_in(ov, obj_view(*obj), depth as nat));
                            }
                        },
                    }
                },
                None => {
                    proof {
                        assert(name_set(names@) =~= name_set(names@) + names_in(ov, obj_view(*obj), depth as nat));
                    }
                },
            }
        },
        PdfObject::Dictionary(d) => {
            dict_names_into(objects, d, names, depth);
        },
        _ => {
            proof {
                assert(name_set(names@) =~= name_set(names@) + names_in(ov, obj_view(*obj), depth as nat));
            }
        },
    }
}

/// Add the names of a field dictionary, its `/Kids` and its `/Fields`.
fn dict_names_into(objects: &Vec<(super::object::ObjId, PdfObject)>, d: &PdfDict, names: &mut Vec<String>, depth: u32)
    requires
        view_ids_sorted(objects_view(objects@)),
        depth <= 16,
    ensures
        name_set(final(names)@) == name_set(old(names)@) + dict_names(objects_view(objects@), dview(*d), depth as nat),
    decreases 17 - depth, 0nat, 0nat,
{
    let ghost ov = objects_view(objects@);
    let ghost e = dview(*d);
    let ghost start = name_set(names@);
    match dict_get(d, &T) {
        Some(PdfObject::Str(b, _)) => {
            let name = pdf_to_string(b.as_slice());
            if !name.as_str().is_empty() {
                let ghost pre = names@;
                names.push(name);
                proof {
                    lemma_name_set_push(pre, name);
                }
            }
        },
        _ => {},
    }
    proof {
        assert(name_set(names@) =~= start + own_name(e)) by {
            match entry_value(e, T@) {
                Some(ObjView::Str(b, _)) => {},
                _ => {},
            }
        }
    }
    let ghost after_t = name_set(names@);
    match dict_get(d, &KIDS) {
        Some(k) => {
            collect_names(objects, k, names, depth + 1);
        },
        None => {},
    }
    let ghost after_kids = name_set(names@);
    match dict_get(d, &FIELDS) {
        Some(f) => {
            collect_names(objects, f, names, depth + 1);
        },
        None => {},
    }
    proof {
        assert(name_set(names@) =~= start + dict_names(ov, e, depth as nat));
    }
}

/// Names of the fields the document's `/AcroForm` lists already (through `/Fields` and
/// `/Kids`, at most 16 levels deep).
pub open spec fn field_names_spec(v: DocView) -> Set<Seq<char>> {
    match entry_value(v.trailer, ROOT@) {
        Some(ObjView::Reference(id)) => match deref_spec(v.objects, object_at(v.objects, id), 0) {
            Some(ObjView::Dictionary(c)) => match entry_value(c, ACROFORM@) {
                Some(a) => names_in(v.objects, a, 0),
                None => Set::empty(),
            },
            _ => Set::empty(),
        },
        _ => Set::empty(),
    }
}

/// The names of the form fields the document has already.
pub fn existing_field_names(doc: &PdfDoc) -> (names: Vec<String>)
    requires
        view_ids_sorted(objects_view(doc.objects@)),
    ensures
        name_set(names@) == field_names_spec(doc_view(*doc)),
{
    let mut names: Vec<String> = Vec::new();
    proof {
        assert(name_set(names@) =~= Set::<Seq<char>>::empty());
        lemma_objects_view(doc.objects@);
    }
    let root = match dict_get(&doc.trailer, &ROOT) {
        Some(PdfObject::Reference(id)) => *id,
        _ => {
            return names;
        },
    };
    let k = match get_object(&doc.objects, root) {
        Some(k) => k,
        None => {
            return names;
        },
    };
    match &doc.objects[k].1 {
        PdfObject::Dictionary(c) => match dict_get(c, &ACROFORM) {
            Some(a) => {
                collect_names(&doc.objects, a, &mut names, 0);
                proof {
                    assert(name_set(names@) =~= field_names_spec(doc_view(*doc)));
                }
            },
            None => {},
        },
        _ => {},
    }
    names
}

/// The UTF-16 code units of one character.
pub open spec fn utf16_of(c: char) -> Seq<u16> {
    let v = c as u32;
    if v < 0x10000 {
        seq![v as u16]
    } else {
        let w = (v - 0x10000) as int;
        seq![(0xD800 + w / 1024) as u16, (0xDC00 + w % 1024) as u16]
    }
}

/// Big-endian bytes of UTF-16 code units.
pub open spec fn be_bytes(units: Seq<u16>) -> Seq<u8>
    decreases units.len(),
{
    if units.len() == 0 {
        Seq::empty()
    } else {
        be_bytes(units.drop_last()) + seq![(units.last() / 256) as u8, (units.last() % 256) as u8]
    }
}

/// UTF-16BE bytes of a text.
pub open spec fn utf16be(cs: Seq<char>) -> Seq<u8>
    decreases cs.len(),
{
    if cs.len() == 0 {
        Seq::empty()
    } else {
        utf16be(cs.drop_last()) + be_bytes(utf16_of(cs.last()))
    }
}

/// The bytes of a PDF text string: one byte per character when every character is at most
/// U+00FF, else a `FE FF` mark and UTF-16BE.
pub open spec fn text_bytes(cs: Seq<char>) -> Seq<u8> {
    if forall|i: int| 0 <= i < cs.len() ==> (cs[i] as u32) <= 0xFF {
        cs.map_values(|c: char| c as u8)
    } else {
        seq![0xFEu8, 0xFFu8] + utf16be(cs)
    }
}

/// The bytes of a PDF text string for the text (see `text_bytes`).
pub fn pdf_text(s: &str) -> (b: Vec<u8>)
    ensures
        b@ == text_bytes(s@),
{
    let n = s.unicode_len();
    let mut narrow = true;
    let mut i: usize = 0;
    while i < n
        invariant
            i <= n,
            n == s@.len(),
            narrow <==> forall|q: int| 0 <= q < i ==> (s@[q] as u32) <= 0xFF,
        decreases n - i,
    {
        let c = s.get_char(i);
        if (c as u32) > 0xFF {
            narrow = false;
        }
        i = i + 1;
    }
    let mut bytes: Vec<u8> = Vec::new();
    if narrow {
        let mut i: usize = 0;
        while i < n
            invariant
                i <= n,
                n == s@.len(),
                forall|q: int| 0 <= q < n ==> (s@[q] as u32) <= 0xFF,
                bytes@ == s@.take(i as int).map_values(|c: char| c as u8),
            decreases n - i,
        {
            let c = s.get_char(i);
            bytes.push(c as u8);
            i = i + 1;
            proof {
                assert(bytes@ =~= s@.take(i as int).map_values(|c: char| c as u8));
            }
        }
        proof {
            assert(s@.take(n as int) =~= s@);
        }
        return bytes;
    }
    bytes.push(0xFE);
    bytes.push(0xFF);
    let mut i: usize = 0;
    while i < n
        invariant
            i <= n,
            n == s@.len(),
            bytes@ == seq![0xFEu8, 0xFFu8] + utf16be(s@.take(i as int)),
        decreases n - i,
    {
        let c = s.get_char(i);
        let v = c as u32;
        let ghost before = bytes@;
        if v < 0x10000 {
            let u = v as u16;
            bytes.push((u / 256) as u8);
            bytes.push((u % 256) as u8);
        } else {
            let w = v - 0x10000;
            let hi = (0xD800 + w / 1024) as u16;
            let lo = (0xDC00 + w % 1024) as u16;
            bytes.push((hi / 256) as u8);
            bytes.push((hi % 256) as u8);
            bytes.push((lo / 256) as u8);
            bytes.push((lo % 256) as u8);
        }
        proof {
            let t = s@.take(i as int + 1);
            assert(t.drop_last() =~= s@.take(i as int));
            assert(t.last() == c);
            let us = utf16_of(c);
            reveal_with_fuel(be_bytes, 3);
            if v < 0x10000 {
                assert(us.drop_last() =~= Seq::<u16>::empty());
                assert(be_bytes(us) =~= seq![(us.last() / 256) as u8, (us.last() % 256) as u8]);
            } else {
                assert(us.drop_last().drop_last() =~= Seq::<u16>::empty());
                assert(be_bytes(us.drop_last()) =~= seq![(us[0] / 256) as u8, (us[0] % 256) as u8]);
            }
            assert(bytes@ =~= seq![0xFEu8, 0xFFu8] + utf16be(s@.take(i as int + 1)));
        }
        i = i + 1;
    }
    proof {
        assert(s@.take(n as int) =~= s@);
    }
    bytes
}





/// Text whose characters are all at most U+00FF, written as a PDF string by `pdf_text` and
/// read back by `pdf_to_string`, is the same text, unless it begins with `þÿ` (which reads as
/// a UTF-16 mark).
pub proof fn lemma_narrow_text_roundtrip(cs: Seq<char>)
    requires
        forall|i: int| 0 <= i < cs.len() ==> (cs[i] as u32) <= 0xFF,
        !(cs.len() >= 2 && (cs[0] as u32) == 0xFE && (cs[1] as u32) == 0xFF),
    ensures
        pdf_string_text(text_bytes(cs)) == cs,
{
    let b = cs.map_values(|c: char| c as u8);
    assert(text_bytes(cs) == b);
    assert forall|i: int| 0 <= i < cs.len() implies (b[i] as char) == cs[i] by {
        let c = cs[i];
        let u = c as u32;
        vstd::utf8::char_u32_cast(c, u);
        assert((c as u8) as int == u as int);
    }
    if b.len() >= 2 && b[0] == 0xFE && b[1] == 0xFF {
        assert((cs[0] as u32) == 0xFE);
        assert((cs[1] as u32) == 0xFF);
    }
    assert(b.map_values(|c: u8| c as char) =~= cs);
}

/// The UTF-16 code units of a text.
pub open spec fn utf16_units(cs: Seq<char>) -> Seq<u16>
    decreases cs.len(),
{
    if cs.len() == 0 {
        Seq::empty()
    } else {
        utf16_units(cs.drop_last()) + utf16_of(cs.last())
    }
}

proof fn lemma_be_bytes_add(x: Seq<u16>, y: Seq<u16>)
    ensures
        be_bytes(x + y) == be_bytes(x) + be_bytes(y),
    decreases y.len(),
{
    if y.len() == 0 {
        assert(x + y =~= x);
        assert(be_bytes(x) + be_bytes(y) =~= be_bytes(x));
    } else {
        assert((x + y).drop_last() =~= x + y.drop_last());
        lemma_be_bytes_add(x, y.drop_last());
        assert((be_bytes(x) + be_bytes(y.drop_last())) + seq![(y.last() / 256) as u8, (y.last() % 256) as u8]
            =~= be_bytes(x) + (be_bytes(y.drop_last()) + seq![(y.last() / 256) as u8, (y.last() % 256) as u8]));
    }
}

proof fn lemma_be_bytes_index(us: Seq<u16>)
    ensures
        be_bytes(us).len() == 2 * us.len(),
        forall|i: int| 0 <= i < us.len() ==> be_bytes(us)[2 * i] == (#[trigger] us[i] / 256) as u8
            && be_bytes(us)[2 * i + 1] == (us[i] % 256) as u8,
    decreases us.len(),
{
    if us.len() > 0 {
        lemma_be_bytes_index(us.drop_last());
        assert forall|i: int| 0 <= i < us.len() implies be_bytes(us)[2 * i] == (#[trigger] us[i] / 256) as u8
            && be_bytes(us)[2 * i + 1] == (us[i] % 256) as u8 by {
            if i < us.len() - 1 {
                assert(us.drop_last()[i] == us[i]);
            }
        }
    }
}

proof fn lemma_be_units_of_bytes(us: Seq<u16>)
    ensures
        be_units(be_bytes(us)) == us,
{
    lemma_be_bytes_index(us);
    let b = be_bytes(us);
    assert forall|i: int| 0 <= i < us.len() implies #[trigger] be_units(b)[i] == us[i] by {
        let u = us[i];
        assert(b[2 * i] == (u / 256) as u8 && b[2 * i + 1] == (u % 256) as u8);
        assert((u / 256) as u8 as int == u as int / 256);
        assert((u % 256) as u8 as int == u as int % 256);
        assert((u as int / 256) * 256 + u as int % 256 == u as int);
    }
    assert(be_units(b) =~= us);
}

proof fn lemma_utf16be_bytes(cs: Seq<char>)
    ensures
        utf16be(cs) == be_bytes(utf16_units(cs)),
    decreases cs.len(),
{
    if cs.len() > 0 {
        lemma_utf16be_bytes(cs.drop_last());
        lemma_be_bytes_add(utf16_units(cs.drop_last()), utf16_of(cs.last()));
    }
}

proof fn lemma_units_front(cs: Seq<char>)
    requires
        cs.len() > 0,
    ensures
        utf16_units(cs) == utf16_of(cs[0]) + utf16_units(cs.drop_first()),
    decreases cs.len(),
{
    if cs.len() == 1 {
        assert(cs.drop_last() =~= Seq::<char>::empty());
        assert(cs.drop_first() =~= Seq::<char>::empty());
        assert(utf16_units(cs.drop_last()) =~= Seq::<u16>::empty());
        assert(cs.last() == cs[0]);
        assert(utf16_units(cs) =~= Seq::<u16>::empty() + utf16_of(cs[0]));
        assert(utf16_units(cs) =~= utf16_of(cs[0]));
        assert(utf16_units(cs.drop_first()) =~= Seq::<u16>::empty());
        assert(utf16_of(cs[0]) + Seq::<u16>::empty() =~= utf16_of(cs[0]));
    } else {
        lemma_units_front(cs.drop_last());
        assert(cs.drop_last().drop_first() =~= cs.drop_first().drop_last());
        assert(cs.drop_first().last() == cs.last());
        assert(cs.drop_last()[0] == cs[0]);
        assert(utf16_units(cs) =~= utf16_of(cs[0]) + utf16_units(cs.drop_first()));
    }
}

proof fn lemma_decode_one(c: char, rest: Seq<u16>)
    ensures
        utf16_lossy(utf16_of(c) + rest) == seq![c] + utf16_lossy(rest),
{
    let v = c as u32;
    vstd::utf8::char_is_scalar(c);
    let us = utf16_of(c) + rest;
    if v < 0x10000 {
        let u = v as u16;
        assert(us[0] == u);
        assert(!high_surrogate(u) && !low_surrogate(u));
        assert(us.drop_first() =~= rest);
        vstd::utf8::char_u32_cast(c, v);
        assert((u as char) == c);
    } else {
        let w = (v - 0x10000) as int;
        assert(0 <= w < 0x100000);
        let hi = (0xD800 + w / 1024) as u16;
        let lo = (0xDC00 + w % 1024) as u16;
        assert(w / 1024 < 1024) by (nonlinear_arith)
            requires
                0 <= w < 0x100000,
        ;
        assert(us[0] == hi && us[1] == lo);
        assert(high_surrogate(hi) && low_surrogate(lo));
        assert(us.subrange(2, us.len() as int) =~= rest);
        assert(w == (w / 1024) * 1024 + w % 1024) by (nonlinear_arith);
        let x = (0x10000 + (hi - 0xD800) * 1024 + (lo - 0xDC00)) as u32;
        assert(x == v);
        vstd::utf8::char_u32_cast(c, v);
    }
}

proof fn lemma_decode_units(cs: Seq<char>)
    ensures
        utf16_lossy(utf16_units(cs)) == cs,
    decreases cs.len(),
{
    if cs.len() == 0 {
        assert(utf16_units(cs) =~= Seq::<u16>::empty());
    } else {
        lemma_units_front(cs);
        lemma_decode_one(cs[0], utf16_units(cs.drop_first()));
        lemma_decode_units(cs.drop_first());
        assert(seq![cs[0]] + cs.drop_first() =~= cs);
    }
}

/// Text with a character above U+00FF, written as a PDF string by `pdf_text` (a `FE FF`
/// mark and UTF-16BE) and read back by `pdf_to_string`, is the same text.
pub proof fn lemma_wide_text_roundtrip(cs: Seq<char>)
    requires
        exists|i: int| 0 <= i < cs.len() && (cs[i] as u32) > 0xFF,
    ensures
        pdf_string_text(text_bytes(cs)) == cs,
{
    let b = text_bytes(cs);
    assert(b == seq![0xFEu8, 0xFFu8] + utf16be(cs));
    assert(b.subrange(2, b.len() as int) =~= utf16be(cs));
    lemma_utf16be_bytes(cs);
    lemma_be_units_of_bytes(utf16_units(cs));
    lemma_decode_units(cs);
}

} // verus!
