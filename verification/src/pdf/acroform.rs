//! Adding form fields to a document: new objects, page annotations and the `/AcroForm`.

use vstd::prelude::*;
use super::object::{PdfObject, PdfDict, PdfDoc, ObjId, ObjView, obj_view, dview, objects_view, object_at, id_lt,
    lemma_objects_view};
use super::graph::{view_ids_sorted, lemma_object_at_found, lemma_object_at_absent};
use super::images::{view_ids, deref_spec, get_object};
use super::object::{list_view, dict_get, dict_set, dict_set_spec, copy_object, copy_dict, entry_value};
use super::names::{ANNOTS, ACROFORM, ROOT, FIELDS, DR, FONT, HELV, NEED_APPEARANCES, DA, TYPE, SUBTYPE, TYPE1,
    BASE_FONT, HELVETICA, ENCODING, WIN_ANSI_ENCODING, DEFAULT_DA};
use super::object::{key_pos, DocView, doc_view};
use super::PdfError;

verus! {

/// The objects as a map from id to value.
pub open spec fn obj_map(ov: Seq<(ObjId, ObjView)>) -> Map<ObjId, ObjView> {
    Map::new(|id: ObjId| view_ids(ov).contains(id), |id: ObjId| object_at(ov, id)->0)
}

/// What sorted objects hold at an id they list.
proof fn lemma_at_index(ov: Seq<(ObjId, ObjView)>, k: int)
    requires
        view_ids_sorted(ov),
        0 <= k < ov.len(),
    ensures
        view_ids(ov).contains(ov[k].0),
        object_at(ov, ov[k].0) == Some(ov[k].1),
{
    lemma_object_at_found(ov, k);
    assert(view_ids(ov)[k] == ov[k].0);
}

/// Sorted objects that agree element by element outside one id, and both hold that id's new
/// value, are the same map updated there.
proof fn lemma_map_update(old: Seq<(ObjId, ObjView)>, new: Seq<(ObjId, ObjView)>, id: ObjId, v: ObjView)
    requires
        view_ids_sorted(old),
        view_ids_sorted(new),
        forall|x: ObjId| #[trigger] view_ids(new).contains(x) <==> view_ids(old).contains(x) || x == id,
        forall|k: int| 0 <= k < new.len() && new[k].0 != id ==> old.contains(#[trigger] new[k]),
        new.contains((id, v)),
    ensures
        obj_map(new) == obj_map(old).insert(id, v),
{
    assert forall|x: ObjId| #[trigger] obj_map(new).contains_key(x) == obj_map(old).insert(id, v).contains_key(x) by {}
    assert forall|x: ObjId| obj_map(new).contains_key(x) implies obj_map(new)[x] == #[trigger] obj_map(old).insert(id, v)[x] by {
        let q = choose|q: int| 0 <= q < view_ids(new).len() && view_ids(new)[q] == x;
        assert(new[q].0 == x);
        lemma_at_index(new, q);
        if x == id {
            let r = choose|r: int| 0 <= r < new.len() && new[r] == (id, v);
            lemma_at_index(new, r);
        } else {
            assert(old.contains(new[q]));
            let r = choose|r: int| 0 <= r < old.len() && old[r] == new[q];
            lemma_at_index(old, r);
        }
    }
    assert(obj_map(new) =~= obj_map(old).insert(id, v));
}

/// `lopdf::Document::add_object`: the next object number, generation 0, gets the object.
pub fn add_object(doc: &mut PdfDoc, o: PdfObject) -> (id: ObjId)
    requires
        view_ids_sorted(objects_view(old(doc).objects@)),
        old(doc).max_id < u32::MAX,
    ensures
        id.0 == old(doc).max_id + 1 && id.1 == 0,
        final(doc).max_id == old(doc).max_id + 1,
        view_ids_sorted(objects_view(final(doc).objects@)),
        obj_map(objects_view(final(doc).objects@)) == obj_map(objects_view(old(doc).objects@)).insert(id, obj_view(o)),
        dview(final(doc).trailer) == dview(old(doc).trailer),
        final(doc).version@ == old(doc).version@,
        final(doc).binary_mark@ == old(doc).binary_mark@,
        final(doc).max_bookmark_id == old(doc).max_bookmark_id,
{
    let ghost ov0 = objects_view(doc.objects@);
    let ghost v = obj_view(o);
    proof {
        lemma_objects_view(doc.objects@);
    }
    doc.max_id = doc.max_id + 1;
    let id: ObjId = (doc.max_id, 0u16);
    let mut k: usize = 0;
    while k < doc.objects.len() && id_less(doc.objects[k].0, id)
        invariant
            k <= doc.objects.len(),
            ov0 == objects_view(doc.objects@),
            ov0.len() == doc.objects@.len(),
            forall|q: int| 0 <= q < ov0.len() ==> #[trigger] ov0[q] == (doc.objects@[q].0, obj_view(doc.objects@[q].1)),
            forall|q: int| 0 <= q < k ==> id_lt(#[trigger] ov0[q].0, id),
        decreases doc.objects.len() - k,
    {
        k = k + 1;
    }
    proof {
        assert(forall|q: int| 0 <= q < ov0.len() ==> #[trigger] ov0[q] == (doc.objects@[q].0, obj_view(doc.objects@[q].1)));
    }
    if k < doc.objects.len() && doc.objects[k].0.0 == id.0 && doc.objects[k].0.1 == id.1 {
        doc.objects.set(k, (id, o));
        proof {
            lemma_objects_view(doc.objects@);
            let nv = objects_view(doc.objects@);
            assert(nv == ov0.update(k as int, (id, v)));
            assert(view_ids(nv) =~= view_ids(ov0));
            assert forall|i: int, j: int| 0 <= i < j < nv.len() implies id_lt(#[trigger] nv[i].0, #[trigger] nv[j].0) by {
                assert(nv[i].0 == ov0[i].0);
                assert(nv[j].0 == ov0[j].0);
            }
            assert forall|x: ObjId| #[trigger] view_ids(nv).contains(x) <==> view_ids(ov0).contains(x) || x == id by {
                if x == id {
                    assert(view_ids(ov0)[k as int] == id);
                }
            }
            assert forall|q: int| 0 <= q < nv.len() && nv[q].0 != id implies ov0.contains(#[trigger] nv[q]) by {
                assert(nv[q] == ov0[q]);
            }
            assert(nv[k as int] == (id, v));
            lemma_map_update(ov0, nv, id, v);
        }
    } else {
        doc.objects.insert(k, (id, o));
        proof {
            lemma_objects_view(doc.objects@);
            let nv = objects_view(doc.objects@);
            assert(nv =~= ov0.insert(k as int, (id, v)));
            if k < ov0.len() {
                assert(!id_lt(ov0[k as int].0, id));
                assert(ov0[k as int].0 != id);
                assert(id_lt(id, ov0[k as int].0));
            }
            assert forall|i: int, j: int| 0 <= i < j < nv.len() implies id_lt(#[trigger] nv[i].0, #[trigger] nv[j].0) by {
                if j < k {
                    assert(nv[i] == ov0[i] && nv[j] == ov0[j]);
                } else if j == k {
                    assert(nv[i] == ov0[i]);
                } else if i < k {
                    assert(nv[i] == ov0[i] && nv[j] == ov0[j - 1]);
                    assert(id_lt(ov0[i].0, id));
                    assert(id_lt(id, ov0[k as int].0));
                    if j - 1 > k {
                        assert(id_lt(ov0[k as int].0, ov0[j - 1].0));
                    }
                } else if i == k {
                    assert(nv[j] == ov0[j - 1]);
                    if j - 1 > k {
                        assert(id_lt(ov0[k as int].0, ov0[j - 1].0));
                    }
                } else {
                    assert(nv[i] == ov0[i - 1] && nv[j] == ov0[j - 1]);
                }
            }
            assert forall|x: ObjId| #[trigger] view_ids(nv).contains(x) <==> view_ids(ov0).contains(x) || x == id by {
                if view_ids(nv).contains(x) {
                    let q = choose|q: int| 0 <= q < view_ids(nv).len() && view_ids(nv)[q] == x;
                    if q < k {
                        assert(view_ids(ov0)[q] == x);
                    } else if q > k {
                        assert(view_ids(ov0)[q - 1] == x);
                    }
                }
                if view_ids(ov0).contains(x) {
                    let q = choose|q: int| 0 <= q < view_ids(ov0).len() && view_ids(ov0)[q] == x;
                    if q < k {
                        assert(view_ids(nv)[q] == x);
                    } else {
                        assert(view_ids(nv)[q + 1] == x);
                    }
                }
                if x == id {
                    assert(view_ids(nv)[k as int] == id);
                }
            }
            assert forall|q: int| 0 <= q < nv.len() && nv[q].0 != id implies ov0.contains(#[trigger] nv[q]) by {
                if q < k {
                    assert(nv[q] == ov0[q]);
                } else {
                    assert(nv[q] == ov0[q - 1]);
                }
            }
            assert(nv[k as int] == (id, v));
            lemma_map_update(ov0, nv, id, v);
        }
    }
    id
}

fn id_less(a: ObjId, b: ObjId) -> (r: bool)
    ensures
        r == id_lt(a, b),
{
    a.0 < b.0 || (a.0 == b.0 && a.1 < b.1)
}


/// The value an id leads to, following references as lopdf's `get_object` does.
pub open spec fn resolved(ov: Seq<(ObjId, ObjView)>, id: ObjId) -> Option<ObjView> {
    deref_spec(ov, object_at(ov, id), 0)
}

/// The items of an array value, or of the array a reference leads to; else nothing.
pub open spec fn deref_list(ov: Seq<(ObjId, ObjView)>, o: ObjView) -> Seq<ObjView> {
    match o {
        ObjView::Array(items) => items,
        ObjView::Reference(id) => match resolved(ov, id) {
            Some(ObjView::Array(items)) => items,
            _ => Seq::empty(),
        },
        _ => Seq::empty(),
    }
}

/// References to the ids.
pub open spec fn refs_view(ids: Seq<ObjId>) -> Seq<ObjView> {
    ids.map_values(|i: ObjId| ObjView::Reference(i))
}

/// A page's annotations as the page dictionary lists them.
pub open spec fn page_annots(ov: Seq<(ObjId, ObjView)>, e: Seq<(Seq<u8>, ObjView)>) -> Seq<ObjView> {
    match entry_value(e, ANNOTS@) {
        Some(a) => deref_list(ov, a),
        None => Seq::empty(),
    }
}

fn array_items(o: PdfObject) -> (r: Vec<PdfObject>)
    ensures
        match obj_view(o) {
            ObjView::Array(items) => list_view(r@) == items,
            _ => r@.len() == 0,
        },
{
    match o {
        PdfObject::Array(v) => v,
        _ => Vec::new(),
    }
}

/// The items of an array, or of the array a reference leads to (`deref_list`).
fn deref_array(objects: &Vec<(ObjId, PdfObject)>, o: &PdfObject) -> (r: Vec<PdfObject>)
    requires
        view_ids_sorted(objects_view(objects@)),
    ensures
        list_view(r@) == deref_list(objects_view(objects@), obj_view(*o)),
{
    match o {
        PdfObject::Array(_) => array_items(copy_object(o)),
        PdfObject::Reference(id) => match get_object(objects, *id) {
            Some(k) => {
                proof {
                    lemma_objects_view(objects@);
                }
                let r = array_items(copy_object(&objects[k].1));
                proof {
                    if !(obj_view(objects@[k as int].1) is Array) {
                        assert(r@ =~= Seq::<PdfObject>::empty());
                    }
                }
                r
            },
            None => Vec::new(),
        },
        _ => Vec::new(),
    }
}

/// Append references to the ids.
fn push_refs(v: &mut Vec<PdfObject>, ids: &Vec<ObjId>)
    ensures
        list_view(final(v)@) == list_view(old(v)@) + refs_view(ids@),
{
    let ghost start = list_view(v@);
    let mut i: usize = 0;
    while i < ids.len()
        invariant
            i <= ids.len(),
            list_view(v@) == start + refs_view(ids@).take(i as int),
        decreases ids.len() - i,
    {
        let ghost pre = v@;
        v.push(PdfObject::Reference(ids[i]));
        proof {
            assert(v@.drop_last() =~= pre);
            assert(v@.last() == PdfObject::Reference(ids@[i as int]));
            assert(v@.len() > 0);
            assert(list_view(v@) == list_view(v@.drop_last()).push(obj_view(v@.last())));
            assert(obj_view(v@.last()) == ObjView::Reference(ids@[i as int]));
            assert(list_view(v@) == list_view(pre).push(ObjView::Reference(ids@[i as int])));
            assert(refs_view(ids@).take(i as int + 1) =~= refs_view(ids@).take(i as int).push(ObjView::Reference(ids@[i as int])));
            assert(list_view(v@) =~= start + refs_view(ids@).take(i as int + 1));
        }
        i = i + 1;
    }
    proof {
        assert(refs_view(ids@).take(i as int) =~= refs_view(ids@));
    }
}

/// Set `key` in the dictionary object at index `k`.
fn set_entry(objects: &mut Vec<(ObjId, PdfObject)>, k: usize, key: &[u8], value: PdfObject)
    requires
        k < old(objects)@.len(),
        obj_view(old(objects)@[k as int].1) is Dictionary,
    ensures
        objects_view(final(objects)@) == objects_view(old(objects)@).update(k as int, (old(objects)@[k as int].0,
            ObjView::Dictionary(dict_set_spec(obj_view(old(objects)@[k as int].1)->Dictionary_0, key@, obj_view(value))))),
{
    proof {
        lemma_objects_view(objects@);
    }
    let ghost pre = objects@;
    let id = objects[k].0;
    let mut d = match &objects[k].1 {
        PdfObject::Dictionary(d) => copy_dict(d),
        _ => PdfDict { entries: Vec::new() },
    };
    dict_set(&mut d, key, value);
    objects.set(k, (id, PdfObject::Dictionary(d)));
    proof {
        lemma_objects_view(objects@);
        assert(objects_view(objects@) =~= objects_view(pre).update(k as int, (pre[k as int].0,
            ObjView::Dictionary(dict_set_spec(obj_view(pre[k as int].1)->Dictionary_0, key@, obj_view(value))))));
    }
}

/// Add references to the widgets to a page's `/Annots` (following a reference to the
/// array when there is one); nothing changes when the page is not a dictionary.
pub fn append_annots(doc: &mut PdfDoc, page_id: ObjId, widgets: &Vec<ObjId>)
    requires
        view_ids_sorted(objects_view(old(doc).objects@)),
    ensures
        view_ids(objects_view(final(doc).objects@)) == view_ids(objects_view(old(doc).objects@)),
        view_ids_sorted(objects_view(final(doc).objects@)),
        dview(final(doc).trailer) == dview(old(doc).trailer),
        final(doc).version@ == old(doc).version@,
        final(doc).binary_mark@ == old(doc).binary_mark@,
        final(doc).max_id == old(doc).max_id,
        final(doc).max_bookmark_id == old(doc).max_bookmark_id,
        match resolved(objects_view(old(doc).objects@), page_id) {
            Some(ObjView::Dictionary(e)) => exists|k: int| 0 <= k < old(doc).objects@.len()
                && objects_view(old(doc).objects@)[k].1 == ObjView::Dictionary(e)
                && objects_view(final(doc).objects@) == objects_view(old(doc).objects@).update(k, (objects_view(old(doc).objects@)[k].0,
                    ObjView::Dictionary(dict_set_spec(e, ANNOTS@,
                        ObjView::Array(page_annots(objects_view(old(doc).objects@), e) + refs_view(widgets@)))))),
            _ => objects_view(final(doc).objects@) == objects_view(old(doc).objects@),
        },
{
    let ghost ov = objects_view(doc.objects@);
    proof {
        lemma_objects_view(doc.objects@);
    }
    match get_object(&doc.objects, page_id) {
        Some(k) => {
            let is_dict = match &doc.objects[k].1 {
                PdfObject::Dictionary(_) => true,
                _ => false,
            };
            if is_dict {
                let ghost e = obj_view(doc.objects@[k as int].1)->Dictionary_0;
                let mut annots = match &doc.objects[k].1 {
                    PdfObject::Dictionary(page) => match dict_get(page, &ANNOTS) {
                        Some(a) => deref_array(&doc.objects, a),
                        None => Vec::new(),
                    },
                    _ => Vec::new(),
                };
                proof {
                    assert(list_view(annots@) == page_annots(ov, e));
                }
                push_refs(&mut annots, widgets);
                let ghost av = list_view(annots@);
                set_entry(&mut doc.objects, k, &ANNOTS, PdfObject::Array(annots));
                proof {
                    lemma_objects_view(doc.objects@);
                    let nv = objects_view(doc.objects@);
                    assert(view_ids(nv) =~= view_ids(ov));
                    super::images::lemma_same_ids_sorted(ov, nv);
                    assert(ov[k as int].1 == ObjView::Dictionary(e));
                    assert(resolved(ov, page_id) == Some(ObjView::Dictionary(e)));
                    assert(nv == ov.update(k as int, (ov[k as int].0, ObjView::Dictionary(dict_set_spec(e, ANNOTS@,
                        ObjView::Array(page_annots(ov, e) + refs_view(widgets@)))))));
                }
            } else {
                proof {
                    assert(resolved(ov, page_id) == Some(obj_view(doc.objects@[k as int].1)));
                }
            }
        },
        None => {},
    }
}


/// The font `/Helv` names in the form's resources: Type 1 Helvetica, WinAnsi encoded.
pub open spec fn font_entries() -> Seq<(Seq<u8>, ObjView)> {
    dict_set_spec(dict_set_spec(dict_set_spec(dict_set_spec(Seq::empty(),
        TYPE@, ObjView::Name(FONT@)), SUBTYPE@, ObjView::Name(TYPE1@)),
        BASE_FONT@, ObjView::Name(HELVETICA@)), ENCODING@, ObjView::Name(WIN_ANSI_ENCODING@))
}

/// The catalog: the dictionary the trailer's `/Root` leads to.
pub open spec fn catalog_of(v: DocView) -> Option<Seq<(Seq<u8>, ObjView)>> {
    match entry_value(v.trailer, ROOT@) {
        Some(ObjView::Reference(r)) => match resolved(v.objects, r) {
            Some(ObjView::Dictionary(c)) => Some(c),
            _ => None,
        },
        _ => None,
    }
}

/// The entries of a dictionary value, or of the dictionary a reference leads to; else none.
pub open spec fn dict_entries_of(ov: Seq<(ObjId, ObjView)>, v: Option<ObjView>) -> Seq<(Seq<u8>, ObjView)> {
    match v {
        Some(ObjView::Dictionary(d)) => d,
        Some(ObjView::Reference(id)) => match resolved(ov, id) {
            Some(ObjView::Dictionary(d)) => d,
            _ => Seq::empty(),
        },
        _ => Seq::empty(),
    }
}

/// The form dictionary after the update: the new fields appended to `/Fields`, appearances
/// left to the viewer, `/Helv` among the resource fonts, and a default appearance when it
/// had none.
pub open spec fn acro_entries(ov: Seq<(ObjId, ObjView)>, e: Seq<(Seq<u8>, ObjView)>, fids: Seq<ObjId>, helv: ObjId)
    -> Seq<(Seq<u8>, ObjView)> {
    let fields = match entry_value(e, FIELDS@) {
        Some(f) => deref_list(ov, f),
        None => Seq::empty(),
    } + refs_view(fids);
    let dr0 = dict_entries_of(ov, entry_value(e, DR@));
    let fonts0 = dict_entries_of(ov, entry_value(dr0, FONT@));
    let dr = dict_set_spec(dr0, FONT@, ObjView::Dictionary(dict_set_spec(fonts0, HELV@, ObjView::Reference(helv))));
    let e1 = dict_set_spec(dict_set_spec(dict_set_spec(e, FIELDS@, ObjView::Array(fields)),
        NEED_APPEARANCES@, ObjView::Boolean(true)), DR@, ObjView::Dictionary(dr));
    if key_pos(e1, DA@) is Some {
        e1
    } else {
        dict_set_spec(e1, DA@, ObjView::Str(DEFAULT_DA@, false))
    }
}

/// `w` is `v` with an object added the way `add_object` adds it.
pub open spec fn added(v: DocView, w: DocView, id: ObjId, o: ObjView) -> bool {
    &&& id.0 == v.max_id + 1 && id.1 == 0
    &&& w.max_id == v.max_id + 1
    &&& view_ids_sorted(w.objects)
    &&& obj_map(w.objects) == obj_map(v.objects).insert(id, o)
    &&& w.trailer == v.trailer && w.version == v.version && w.binary_mark == v.binary_mark
    &&& w.max_bookmark_id == v.max_bookmark_id
}

/// `w` is `v` with one dictionary object, holding `e`, given the entries `ne`.
pub open spec fn dict_rewritten(v: DocView, w: DocView, e: Seq<(Seq<u8>, ObjView)>, ne: Seq<(Seq<u8>, ObjView)>) -> bool {
    exists|k: int| 0 <= k < v.objects.len() && v.objects[k].1 == ObjView::Dictionary(e)
        && w == (DocView { objects: v.objects.update(k, (v.objects[k].0, ObjView::Dictionary(ne))), ..v })
}

/// The steps of the form update, state by state: the Helvetica font is added; the existing
/// `/AcroForm` is used when it is a reference, else added as a new object (an empty one when
/// there is none); the catalog, when there is one, is pointed at it; and the form dictionary
/// is rewritten (see `acro_entries`).
pub open spec fn acroform_steps(v0: DocView, v1: DocView, v2: DocView, v3: DocView, v4: DocView,
    helv: ObjId, acro: ObjId, fids: Seq<ObjId>) -> bool {
    &&& added(v0, v1, helv, ObjView::Dictionary(font_entries()))
    &&& match catalog_of(v1) {
        Some(c) => match entry_value(c, ACROFORM@) {
            Some(ObjView::Reference(id)) => acro == id && v2 == v1,
            Some(ObjView::Dictionary(d)) => added(v1, v2, acro, ObjView::Dictionary(d)),
            _ => added(v1, v2, acro, ObjView::Dictionary(Seq::empty())),
        },
        None => added(v1, v2, acro, ObjView::Dictionary(Seq::empty())),
    }
    &&& match catalog_of(v2) {
        Some(c) => dict_rewritten(v2, v3, c, dict_set_spec(c, ACROFORM@, ObjView::Reference(acro))),
        None => v3 == v2,
    }
    &&& match resolved(v3.objects, acro) {
        Some(ObjView::Dictionary(e)) => dict_rewritten(v3, v4, e, acro_entries(v3.objects, e, fids, helv)),
        _ => false,
    }
}

/// The form update fails: the catalog's `/AcroForm` is a reference that leads to no
/// dictionary once the font is added and the catalog pointed at it.
pub open spec fn acroform_refused(v0: DocView, v1: DocView, v2: DocView, v3: DocView, helv: ObjId, acro: ObjId) -> bool {
    &&& added(v0, v1, helv, ObjView::Dictionary(font_entries()))
    &&& catalog_of(v1) matches Some(c) && entry_value(c, ACROFORM@) == Some(ObjView::Reference(acro)) && v2 == v1
    &&& match catalog_of(v2) {
        Some(c) => dict_rewritten(v2, v3, c, dict_set_spec(c, ACROFORM@, ObjView::Reference(acro))),
        None => v3 == v2,
    }
    &&& !(resolved(v3.objects, acro) matches Some(ObjView::Dictionary(_)))
}

fn font_dict() -> (d: PdfDict)
    ensures
        dview(d) == font_entries(),
{
    let mut d = PdfDict { entries: Vec::new() };
    proof {
        assert(dview(d) =~= Seq::<(Seq<u8>, ObjView)>::empty());
    }
    dict_set(&mut d, &TYPE, PdfObject::Name(super::object::copy_bytes(&FONT)));
    dict_set(&mut d, &SUBTYPE, PdfObject::Name(super::object::copy_bytes(&TYPE1)));
    dict_set(&mut d, &BASE_FONT, PdfObject::Name(super::object::copy_bytes(&HELVETICA)));
    dict_set(&mut d, &ENCODING, PdfObject::Name(super::object::copy_bytes(&WIN_ANSI_ENCODING)));
    d
}

/// Index of the catalog object, if the trailer's `/Root` leads to a dictionary.
fn find_catalog(doc: &PdfDoc) -> (r: Option<usize>)
    requires
        view_ids_sorted(objects_view(doc.objects@)),
    ensures
        match r {
            Some(k) => k < doc.objects@.len() && catalog_of(doc_view(*doc)) is Some
                && objects_view(doc.objects@)[k as int].1 == ObjView::Dictionary(catalog_of(doc_view(*doc))->0),
            None => catalog_of(doc_view(*doc)) is None,
        },
{
    proof {
        lemma_objects_view(doc.objects@);
    }
    match dict_get(&doc.trailer, &ROOT) {
        Some(PdfObject::Reference(r)) => match get_object(&doc.objects, *r) {
            Some(k) => match &doc.objects[k].1 {
                PdfObject::Dictionary(_) => Some(k),
                _ => None,
            },
            None => None,
        },
        _ => None,
    }
}

/// The entries of a dictionary object, or of the dictionary a reference leads to.
fn dict_copy_of(objects: &Vec<(ObjId, PdfObject)>, v: Option<&PdfObject>) -> (d: PdfDict)
    requires
        view_ids_sorted(objects_view(objects@)),
    ensures
        dview(d) == dict_entries_of(objects_view(objects@), match v { Some(o) => Some(obj_view(*o)), None => None }),
{
    proof {
        lemma_objects_view(objects@);
    }
    match v {
        Some(PdfObject::Dictionary(d)) => copy_dict(d),
        Some(PdfObject::Reference(id)) => match get_object(objects, *id) {
            Some(k) => match &objects[k].1 {
                PdfObject::Dictionary(d) => copy_dict(d),
                _ => {
                    let d = PdfDict { entries: Vec::new() };
                    proof {
                        assert(dview(d) =~= Seq::<(Seq<u8>, ObjView)>::empty());
                    }
                    d
                },
            },
            None => {
                let d = PdfDict { entries: Vec::new() };
                proof {
                    assert(dview(d) =~= Seq::<(Seq<u8>, ObjView)>::empty());
                }
                d
            },
        },
        _ => {
            let d = PdfDict { entries: Vec::new() };
            proof {
                assert(dview(d) =~= Seq::<(Seq<u8>, ObjView)>::empty());
            }
            d
        },
    }
}

/// The rewritten form dictionary (see `acro_entries`).
fn build_acro(objects: &Vec<(ObjId, PdfObject)>, acro: &PdfDict, fids: &Vec<ObjId>, helv: ObjId) -> (d: PdfDict)
    requires
        view_ids_sorted(objects_view(objects@)),
    ensures
        dview(d) == acro_entries(objects_view(objects@), dview(*acro), fids@, helv),
{
    let mut fields = match dict_get(acro, &FIELDS) {
        Some(f) => deref_array(objects, f),
        None => Vec::new(),
    };
    push_refs(&mut fields, fids);
    let mut dr = dict_copy_of(objects, dict_get(acro, &DR));
    let mut fonts = dict_copy_of(objects, dict_get(&dr, &FONT));
    dict_set(&mut fonts, &HELV, PdfObject::Reference(helv));
    dict_set(&mut dr, &FONT, PdfObject::Dictionary(fonts));
    let mut d = copy_dict(acro);
    dict_set(&mut d, &FIELDS, PdfObject::Array(fields));
    dict_set(&mut d, &NEED_APPEARANCES, PdfObject::Boolean(true));
    dict_set(&mut d, &DR, PdfObject::Dictionary(dr));
    if dict_get(&d, &DA).is_none() {
        dict_set(&mut d, &DA, PdfObject::Str(super::object::copy_bytes(&DEFAULT_DA), false));
    }
    proof {
        super::object::lemma_entries_view(d.entries@);
    }
    d
}

/// Replace the dictionary object at index `k` by `d`.
fn replace_dict(objects: &mut Vec<(ObjId, PdfObject)>, k: usize, d: PdfDict)
    requires
        k < old(objects)@.len(),
    ensures
        objects_view(final(objects)@) == objects_view(old(objects)@).update(k as int,
            (old(objects)@[k as int].0, ObjView::Dictionary(dview(d)))),
{
    let ghost pre = objects@;
    let id = objects[k].0;
    objects.set(k, (id, PdfObject::Dictionary(d)));
    proof {
        lemma_objects_view(pre);
        lemma_objects_view(objects@);
        assert(objects_view(objects@) =~= objects_view(pre).update(k as int, (pre[k as int].0, ObjView::Dictionary(dview(d)))));
    }
}

/// Register the new fields in the document's `/AcroForm` (creating it when missing), with
/// `/NeedAppearances` set and `/Helv` in its resources. Fails when the `/AcroForm` the
/// catalog refers to is not a dictionary.
pub fn upsert_acroform(doc: &mut PdfDoc, field_ids: &Vec<ObjId>) -> (r: Result<(), PdfError>)
    requires
        view_ids_sorted(objects_view(old(doc).objects@)),
        old(doc).max_id < u32::MAX - 1,
    ensures
        view_ids_sorted(objects_view(final(doc).objects@)),
        match r {
            Ok(()) => exists|v1: DocView, v2: DocView, v3: DocView, helv: ObjId, acro: ObjId|
                acroform_steps(doc_view(*old(doc)), v1, v2, v3, doc_view(*final(doc)), helv, acro, field_ids@),
            Err(PdfError::Invalid(_)) => exists|v1: DocView, v2: DocView, v3: DocView, helv: ObjId, acro: ObjId|
                acroform_refused(doc_view(*old(doc)), v1, v2, v3, helv, acro),
            Err(_) => false,
        },
{
    let ghost v0 = doc_view(*doc);
    let helv = add_object(doc, PdfObject::Dictionary(font_dict()));
    let ghost v1 = doc_view(*doc);
    proof {
        assert(added(v0, v1, helv, ObjView::Dictionary(font_entries())));
    }
    let existing: Option<PdfObject> = match find_catalog(doc) {
        Some(k) => match &doc.objects[k].1 {
            PdfObject::Dictionary(c) => match dict_get(c, &ACROFORM) {
                Some(a) => Some(copy_object(a)),
                None => None,
            },
            _ => None,
        },
        None => None,
    };
    proof {
        lemma_objects_view(doc.objects@);
    }
    let ghost from_ref = existing matches Some(PdfObject::Reference(_));
    let acro: ObjId = match existing {
        Some(PdfObject::Reference(id)) => id,
        Some(PdfObject::Dictionary(d)) => add_object(doc, PdfObject::Dictionary(d)),
        _ => {
            let e = PdfDict { entries: Vec::new() };
            proof {
                assert(dview(e) =~= Seq::<(Seq<u8>, ObjView)>::empty());
            }
            add_object(doc, PdfObject::Dictionary(e))
        },
    };
    let ghost v2 = doc_view(*doc);
    match find_catalog(doc) {
        Some(k) => {
            proof {
                lemma_objects_view(doc.objects@);
            }
            let ghost c = catalog_of(v2)->0;
            set_entry(&mut doc.objects, k, &ACROFORM, PdfObject::Reference(acro));
            proof {
                lemma_objects_view(doc.objects@);
                assert(objects_view(doc.objects@) == v2.objects.update(k as int, (v2.objects[k as int].0,
                    ObjView::Dictionary(dict_set_spec(c, ACROFORM@, ObjView::Reference(acro))))));
                assert(doc_view(*doc) == (DocView { objects: v2.objects.update(k as int, (v2.objects[k as int].0,
                    ObjView::Dictionary(dict_set_spec(c, ACROFORM@, ObjView::Reference(acro))))), ..v2 }));
                assert(view_ids(objects_view(doc.objects@)) =~= view_ids(v2.objects));
                super::images::lemma_same_ids_sorted(v2.objects, objects_view(doc.objects@));
            }
        },
        None => {},
    }
    let ghost v3 = doc_view(*doc);
    proof {
        lemma_objects_view(doc.objects@);
        if !from_ref {
            assert(obj_map(v2.objects).contains_key(acro));
            assert(obj_map(v2.objects)[acro] is Dictionary);
            let q = choose|q: int| 0 <= q < view_ids(v2.objects).len() && view_ids(v2.objects)[q] == acro;
            assert(v2.objects[q].0 == acro);
            lemma_at_index(v2.objects, q);
            assert(v2.objects[q].1 is Dictionary);
            assert(v3.objects.len() == v2.objects.len());
            assert(v3.objects[q].0 == acro);
            assert(v3.objects[q].1 is Dictionary);
            lemma_at_index(v3.objects, q);
            assert(resolved(v3.objects, acro) == Some(v3.objects[q].1));
        }
    }
    let ka = match get_object(&doc.objects, acro) {
        Some(k) => match &doc.objects[k].1 {
            PdfObject::Dictionary(_) => k,
            _ => {
                proof {
                    assert(from_ref);
                    assert(acroform_refused(v0, v1, v2, v3, helv, acro));
                }
                return Err(PdfError::Invalid(form_error()));
            },
        },
        None => {
            proof {
                assert(from_ref);
                assert(acroform_refused(v0, v1, v2, v3, helv, acro));
            }
            return Err(PdfError::Invalid(form_error()));
        },
    };
    let ghost e = obj_view(doc.objects@[ka as int].1)->Dictionary_0;
    let nd = match &doc.objects[ka].1 {
        PdfObject::Dictionary(a) => build_acro(&doc.objects, a, field_ids, helv),
        _ => PdfDict { entries: Vec::new() },
    };
    replace_dict(&mut doc.objects, ka, nd);
    proof {
        lemma_objects_view(doc.objects@);
        assert(view_ids(objects_view(doc.objects@)) =~= view_ids(v3.objects));
        super::images::lemma_same_ids_sorted(v3.objects, objects_view(doc.objects@));
        assert(doc_view(*doc) == (DocView { objects: v3.objects.update(ka as int, (v3.objects[ka as int].0,
            ObjView::Dictionary(acro_entries(v3.objects, e, field_ids@, helv)))), ..v3 }));
        assert(acroform_steps(v0, v1, v2, v3, doc_view(*doc), helv, acro, field_ids@));
    }
    Ok(())
}

/// The text `AcroForm is not a dictionary`.
pub open spec fn form_error_text() -> Seq<u8> {
    seq![65u8, 99, 114, 111, 70, 111, 114, 109, 32, 105, 115, 32, 110, 111, 116, 32,
        97, 32, 100, 105, 99, 116, 105, 111, 110, 97, 114, 121]
}

/// The message when the `/AcroForm` the catalog refers to is not a dictionary.
fn form_error() -> (s: String)
    ensures
        s@ == super::text::ascii_chars(form_error_text()),
{
    let b = super::object::copy_bytes(&[65u8, 99, 114, 111, 70, 111, 114, 109, 32, 105, 115, 32, 110, 111, 116, 32,
        97, 32, 100, 105, 99, 116, 105, 111, 110, 97, 114, 121]);
    proof {
        assert(b@ =~= form_error_text());
    }
    super::text::ascii_string(b)
}

} // verus!
