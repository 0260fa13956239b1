//! The named XObjects a page or a form XObject can draw: its `/Resources` `/XObject`
//! entries, with those of the pages above it inherited.

use vstd::prelude::*;
use super::object::{PdfObject, PdfDict, PdfDoc, ObjId, ObjView, obj_view, dview, objects_view, entry_value,
    dict_get, copy_dict, copy_bytes, lemma_objects_view, lemma_entries_view};
use super::graph::view_ids_sorted;
use super::images::get_object;
use super::acroform::resolved;
use super::names::{XOBJECT, PARENT, RESOURCES};

verus! {

/// A name and the object it refers to.
pub type NamedRef = (Vec<u8>, ObjId);

/// The value of a list of named references.
pub open spec fn pairs_view(s: Seq<NamedRef>) -> Seq<(Seq<u8>, ObjId)> {
    s.map_values(|p: NamedRef| (p.0@, p.1))
}

/// The dictionary an entry's value is, or that its reference leads to (lopdf's
/// `get_dictionary`).
pub open spec fn dict_of(ov: Seq<(ObjId, ObjView)>, o: Option<ObjView>) -> Option<Seq<(Seq<u8>, ObjView)>> {
    match o {
        Some(ObjView::Dictionary(d)) => Some(d),
        Some(ObjView::Reference(id)) => match resolved(ov, id) {
            Some(ObjView::Dictionary(d)) => Some(d),
            _ => None,
        },
        _ => None,
    }
}

/// The entries whose values are references, as (name, target), in order.
pub open spec fn name_refs(e: Seq<(Seq<u8>, ObjView)>) -> Seq<(Seq<u8>, ObjId)>
    decreases e.len(),
{
    if e.len() == 0 {
        Seq::empty()
    } else {
        let p = name_refs(e.drop_last());
        match e.last().1 {
            ObjView::Reference(id) => p.push((e.last().0, id)),
            _ => p,
        }
    }
}

/// The named XObject references of a resource dictionary, in its order.
pub open spec fn xobject_pairs(ov: Seq<(ObjId, ObjView)>, res: Seq<(Seq<u8>, ObjView)>) -> Seq<(Seq<u8>, ObjId)> {
    match dict_of(ov, entry_value(res, XOBJECT@)) {
        Some(x) => name_refs(x),
        None => Seq::empty(),
    }
}

/// A page tree node's `/Parent` reference.
pub open spec fn parent_of(d: Seq<(Seq<u8>, ObjView)>) -> Option<ObjId> {
    match entry_value(d, PARENT@) {
        Some(ObjView::Reference(p)) => Some(p),
        _ => None,
    }
}

/// The resource dictionaries met walking up from a page through its `/Parent`s, nearest
/// first: at most `fuel` nodes, stopping at the first id that is not a dictionary.
pub open spec fn resource_chain(ov: Seq<(ObjId, ObjView)>, cur: Option<ObjId>, fuel: nat) -> Seq<Seq<(Seq<u8>, ObjView)>>
    decreases fuel,
{
    if fuel == 0 {
        Seq::empty()
    } else {
        match cur {
            None => Seq::empty(),
            Some(id) => match resolved(ov, id) {
                Some(ObjView::Dictionary(d)) => {
                    let here = match dict_of(ov, entry_value(d, RESOURCES@)) {
                        Some(r) => seq![r],
                        None => Seq::empty(),
                    };
                    here + resource_chain(ov, parent_of(d), (fuel - 1) as nat)
                },
                _ => Seq::empty(),
            },
        }
    }
}

/// The named references of a chain of resource dictionaries, the farthest first, so that a
/// nearer one's entry comes after (and, in a map, overrides) a farther one's.
pub open spec fn chain_pairs(ov: Seq<(ObjId, ObjView)>, chain: Seq<Seq<(Seq<u8>, ObjView)>>) -> Seq<(Seq<u8>, ObjId)>
    decreases chain.len(),
{
    if chain.len() == 0 {
        Seq::empty()
    } else {
        chain_pairs(ov, chain.drop_first()) + xobject_pairs(ov, chain[0])
    }
}

/// The named XObject references a page can draw (a walk of at most 20 page tree nodes).
pub open spec fn page_xobject_pairs(ov: Seq<(ObjId, ObjView)>, page_id: ObjId) -> Seq<(Seq<u8>, ObjId)> {
    chain_pairs(ov, resource_chain(ov, Some(page_id), 20))
}

/// The named XObject references inside a form XObject: from its own `/Resources` when it has
/// a dictionary or a reference there (nothing when the reference leads to no dictionary);
/// `None` when it has neither, and the form draws with its parent's.
pub open spec fn form_xobject_pairs(ov: Seq<(ObjId, ObjView)>, o: Option<ObjView>) -> Option<Seq<(Seq<u8>, ObjId)>> {
    match o {
        Some(ObjView::Stream(d, _, _, _)) => match entry_value(d, RESOURCES@) {
            Some(ObjView::Dictionary(r)) => Some(xobject_pairs(ov, r)),
            Some(ObjView::Reference(rid)) => Some(
                match resolved(ov, rid) {
                    Some(ObjView::Dictionary(r)) => xobject_pairs(ov, r),
                    _ => Seq::empty(),
                },
            ),
            _ => None,
        },
        _ => None,
    }
}

fn resolve_dict(objects: &Vec<(ObjId, PdfObject)>, id: ObjId) -> (r: Option<PdfDict>)
    requires
        view_ids_sorted(objects_view(objects@)),
    ensures
        match r {
            Some(d) => resolved(objects_view(objects@), id) == Some(ObjView::Dictionary(dview(d))),
            None => !(resolved(objects_view(objects@), id) matches Some(ObjView::Dictionary(_))),
        },
{
    match get_object(objects, id) {
        Some(k) => {
            proof {
                lemma_objects_view(objects@);
            }
            match &objects[k].1 {
                PdfObject::Dictionary(d) => Some(copy_dict(d)),
                _ => None,
            }
        },
        None => None,
    }
}

fn dict_at(objects: &Vec<(ObjId, PdfObject)>, o: &PdfObject) -> (r: Option<PdfDict>)
    requires
        view_ids_sorted(objects_view(objects@)),
    ensures
        match r {
            Some(d) => dict_of(objects_view(objects@), Some(obj_view(*o))) == Some(dview(d)),
            None => dict_of(objects_view(objects@), Some(obj_view(*o))) is None,
        },
{
    match o {
        PdfObject::Dictionary(d) => Some(copy_dict(d)),
        PdfObject::Reference(id) => resolve_dict(objects, *id),
        _ => None,
    }
}

fn refs_named(d: &PdfDict) -> (r: Vec<NamedRef>)
    ensures
        pairs_view(r@) == name_refs(dview(*d)),
{
    proof {
        lemma_entries_view(d.entries@);
    }
    let ghost e = dview(*d);
    let mut r: Vec<NamedRef> = Vec::new();
    let mut i: usize = 0;
    while i < d.entries.len()
        invariant
            i <= d.entries.len(),
            e == dview(*d),
            e.len() == d.entries.len(),
            forall|j: int| 0 <= j < d.entries@.len() ==> #[trigger] e[j] == (d.entries@[j].0@, obj_view(d.entries@[j].1)),
            pairs_view(r@) == name_refs(e.take(i as int)),
        decreases d.entries.len() - i,
    {
        proof {
            assert(e.take(i as int + 1).drop_last() =~= e.take(i as int));
            assert(e.take(i as int + 1).last() == e[i as int]);
            assert(e[i as int] == (d.entries@[i as int].0@, obj_view(d.entries@[i as int].1)));
        }
        match &d.entries[i].1 {
            PdfObject::Reference(id) => {
                let ghost pre = r@;
                r.push((copy_bytes(d.entries[i].0.as_slice()), *id));
                proof {
                    assert(pairs_view(r@) =~= pairs_view(pre).push((e[i as int].0, *id)));
                }
            },
            _ => {},
        }
        i = i + 1;
    }
    proof {
        assert(e.take(i as int) =~= e);
    }
    r
}

/// The named XObject references of a resource dictionary (see `xobject_pairs`).
pub fn xobject_names(doc: &PdfDoc, res: &PdfDict) -> (r: Vec<NamedRef>)
    requires
        view_ids_sorted(objects_view(doc.objects@)),
    ensures
        pairs_view(r@) == xobject_pairs(objects_view(doc.objects@), dview(*res)),
{
    match dict_get(res, &XOBJECT) {
        Some(o) => match dict_at(&doc.objects, o) {
            Some(x) => refs_named(&x),
            None => Vec::new(),
        },
        None => Vec::new(),
    }
}

fn append_pairs(out: &mut Vec<NamedRef>, more: Vec<NamedRef>)
    ensures
        pairs_view(final(out)@) == pairs_view(old(out)@) + pairs_view(more@),
{
    let ghost start = out@;
    let mut i: usize = 0;
    while i < more.len()
        invariant
            i <= more.len(),
            pairs_view(out@) == pairs_view(start) + pairs_view(more@.take(i as int)),
        decreases more.len() - i,
    {
        let ghost pre = out@;
        let (n, id) = (copy_bytes(more[i].0.as_slice()), more[i].1);
        out.push((n, id));
        proof {
            assert(pairs_view(out@) =~= pairs_view(pre).push((more@[i as int].0@, more@[i as int].1)));
            assert(pairs_view(more@.take(i as int + 1)) =~= pairs_view(more@.take(i as int)).push(
                (more@[i as int].0@, more@[i as int].1)));
        }
        i = i + 1;
        proof {
            assert(pairs_view(out@) =~= pairs_view(start) + pairs_view(more@.take(i as int)));
        }
    }
    proof {
        assert(more@.take(i as int) =~= more@);
    }
}

/// The named XObject references a page can draw (see `page_xobject_pairs`): put into a map
/// in this order, a nearer node's entries override those inherited from above.
pub fn page_xobjects(doc: &PdfDoc, page_id: ObjId) -> (r: Vec<NamedRef>)
    requires
        view_ids_sorted(objects_view(doc.objects@)),
    ensures
        pairs_view(r@) == page_xobject_pairs(objects_view(doc.objects@), page_id),
{
    let ghost ov = objects_view(doc.objects@);
    let ghost whole = resource_chain(ov, Some(page_id), 20);
    let mut chain: Vec<PdfDict> = Vec::new();
    let ghost mut cv: Seq<Seq<(Seq<u8>, ObjView)>> = Seq::empty();
    let mut cur: Option<ObjId> = Some(page_id);
    let mut fuel: usize = 20;
    while fuel > 0
        invariant
            fuel <= 20,
            ov == objects_view(doc.objects@),
            view_ids_sorted(ov),
            cv.len() == chain@.len(),
            forall|q: int| 0 <= q < cv.len() ==> #[trigger] cv[q] == dview(chain@[q]),
            cv + resource_chain(ov, cur, fuel as nat) == whole,
        ensures
            cv == whole,
        decreases fuel,
    {
        let id = match cur {
            Some(id) => id,
            None => {
                proof {
                    assert(resource_chain(ov, cur, fuel as nat) =~= Seq::<Seq<(Seq<u8>, ObjView)>>::empty());
                    assert(cv + resource_chain(ov, cur, fuel as nat) =~= cv);
                }
                break;
            },
        };
        let d = match resolve_dict(&doc.objects, id) {
            Some(d) => d,
            None => {
                proof {
                    assert(resource_chain(ov, cur, fuel as nat) =~= Seq::<Seq<(Seq<u8>, ObjView)>>::empty());
                    assert(cv + resource_chain(ov, cur, fuel as nat) =~= cv);
                }
                break;
            },
        };
        let ghost dv = dview(d);
        let ghost here: Seq<Seq<(Seq<u8>, ObjView)>> = match dict_of(ov, entry_value(dv, RESOURCES@)) {
            Some(r) => seq![r],
            None => Seq::empty(),
        };
        proof {
            assert(resource_chain(ov, cur, fuel as nat) == here + resource_chain(ov, parent_of(dv), (fuel - 1) as nat));
        }
        match dict_get(&d, &RESOURCES) {
            Some(o) => match dict_at(&doc.objects, o) {
                Some(res) => {
                    proof {
                        assert(here == seq![dview(res)]);
                    }
                    chain.push(res);
                    proof {
                        cv = cv.push(dview(chain@.last()));
                        assert(cv + resource_chain(ov, parent_of(dv), (fuel - 1) as nat) =~= (cv.drop_last() + here)
                            + resource_chain(ov, parent_of(dv), (fuel - 1) as nat));
                    }
                },
                None => {
                    proof {
                        assert(here =~= Seq::<Seq<(Seq<u8>, ObjView)>>::empty());
                        assert(cv + here =~= cv);
                    }
                },
            },
            None => {
                proof {
                    assert(here =~= Seq::<Seq<(Seq<u8>, ObjView)>>::empty());
                    assert(cv + here =~= cv);
                }
            },
        }
        cur = match dict_get(&d, &PARENT) {
            Some(PdfObject::Reference(p)) => Some(*p),
            _ => None,
        };
        proof {
            assert(cur == parent_of(dv));
        }
        fuel = fuel - 1;
        proof {
            if fuel == 0 {
                assert(resource_chain(ov, cur, 0) =~= Seq::<Seq<(Seq<u8>, ObjView)>>::empty());
                assert(cv + resource_chain(ov, cur, 0) =~= cv);
            }
        }
    }
    let mut out: Vec<NamedRef> = Vec::new();
    let n = chain.len();
    let mut i: usize = n;
    while i > 0
        invariant
            i <= n,
            n == chain@.len(),
            cv.len() == n,
            cv == whole,
            ov == objects_view(doc.objects@),
            view_ids_sorted(ov),
            forall|q: int| 0 <= q < cv.len() ==> #[trigger] cv[q] == dview(chain@[q]),
            pairs_view(out@) == chain_pairs(ov, cv.subrange(i as int, n as int)),
        decreases i,
    {
        i = i - 1;
        let more = xobject_names(doc, &chain[i]);
        proof {
            let s = cv.subrange(i as int, n as int);
            assert(s.drop_first() =~= cv.subrange(i as int + 1, n as int));
            assert(s[0] == cv[i as int]);
        }
        append_pairs(&mut out, more);
    }
    proof {
        assert(cv.subrange(0, n as int) =~= cv);
    }
    out
}

/// The named XObject references inside a form XObject (see `form_xobject_pairs`): `None`
/// when it inherits those of whatever draws it.
pub fn form_xobjects(doc: &PdfDoc, id: ObjId) -> (r: Option<Vec<NamedRef>>)
    requires
        view_ids_sorted(objects_view(doc.objects@)),
    ensures
        match r {
            Some(v) => form_xobject_pairs(objects_view(doc.objects@), resolved(objects_view(doc.objects@), id))
                == Some(pairs_view(v@)),
            None => form_xobject_pairs(objects_view(doc.objects@), resolved(objects_view(doc.objects@), id)) is None,
        },
{
    let k = match get_object(&doc.objects, id) {
        Some(k) => k,
        None => {
            return None;
        },
    };
    proof {
        lemma_objects_view(doc.objects@);
    }
    let s = match &doc.objects[k].1 {
        PdfObject::Stream(s) => s,
        _ => {
            return None;
        },
    };
    match dict_get(&s.dict, &RESOURCES) {
        Some(PdfObject::Dictionary(res)) => Some(xobject_names(doc, res)),
        Some(PdfObject::Reference(rid)) => match resolve_dict(&doc.objects, *rid) {
            Some(res) => Some(xobject_names(doc, &res)),
            None => Some(Vec::new()),
        },
        _ => None,
    }
}

} // verus!
