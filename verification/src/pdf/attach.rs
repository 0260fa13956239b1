//! Attaching new widget annotations to their pages and registering them as fields.

use vstd::prelude::*;
use super::object::{PdfDoc, ObjId, ObjView, DocView, doc_view, objects_view, dict_set_spec, lemma_objects_view};
use super::graph::view_ids_sorted;
use super::images::view_ids;
use super::acroform::{resolved, page_annots, refs_view, append_annots, upsert_acroform, acroform_steps,
    acroform_refused};
use super::names::ANNOTS;
use super::PdfError;
use super::forms::FieldKind;
use super::text::{ascii_chars, ascii_string, decimal_spec, NOTE_FIELDS, NOTE_TEXT, NOTE_CHECKBOX, NOTE_NO_SLOTS};
use super::structure::{ascii_const, append_number};

verus! {

/// `w` is `v` after `append_annots` added the widgets to the page's `/Annots`.
pub open spec fn annots_step(v: DocView, w: DocView, page: ObjId, widgets: Seq<ObjId>) -> bool {
    &&& w.version == v.version && w.binary_mark == v.binary_mark && w.trailer == v.trailer
    &&& w.max_id == v.max_id && w.max_bookmark_id == v.max_bookmark_id
    &&& view_ids(w.objects) == view_ids(v.objects)
    &&& view_ids_sorted(w.objects)
    &&& match resolved(v.objects, page) {
        Some(ObjView::Dictionary(e)) => exists|k: int| 0 <= k < v.objects.len()
            && v.objects[k].1 == ObjView::Dictionary(e)
            && w.objects == v.objects.update(k, (v.objects[k].0,
                ObjView::Dictionary(dict_set_spec(e, ANNOTS@, ObjView::Array(page_annots(v.objects, e) + refs_view(widgets)))))),
        _ => w.objects == v.objects,
    }
}

/// The distinct pages among the first `n`, in the order they first appear.
pub open spec fn heads(pages: Seq<ObjId>, n: nat) -> Seq<ObjId>
    decreases n,
{
    if n == 0 {
        Seq::empty()
    } else {
        let h = heads(pages, (n - 1) as nat);
        if h.contains(pages[n - 1]) {
            h
        } else {
            h.push(pages[n - 1])
        }
    }
}

/// The widgets among the first `n` that sit on `page`, in order.
pub open spec fn on_page(pages: Seq<ObjId>, ids: Seq<ObjId>, page: ObjId, n: nat) -> Seq<ObjId>
    decreases n,
{
    if n == 0 {
        Seq::empty()
    } else {
        let rest = on_page(pages, ids, page, (n - 1) as nat);
        if pages[n - 1] == page {
            rest.push(ids[n - 1])
        } else {
            rest
        }
    }
}

/// The widgets grouped by page: one group per page, pages in first-seen order.
pub open spec fn page_groups(pages: Seq<ObjId>, ids: Seq<ObjId>) -> Seq<(ObjId, Seq<ObjId>)> {
    heads(pages, pages.len()).map_values(|p: ObjId| (p, on_page(pages, ids, p, pages.len())))
}

/// The groups' widgets, one group after another.
pub open spec fn flatten(g: Seq<(ObjId, Seq<ObjId>)>) -> Seq<ObjId>
    decreases g.len(),
{
    if g.len() == 0 {
        Seq::empty()
    } else {
        flatten(g.drop_last()) + g.last().1
    }
}

/// `vs` runs from `v` through one `annots_step` per group.
pub open spec fn annots_chain(vs: Seq<DocView>, v: DocView, g: Seq<(ObjId, Seq<ObjId>)>) -> bool {
    &&& vs.len() == g.len() + 1
    &&& vs[0] == v
    &&& forall|j: int| 0 <= j < g.len() ==> #[trigger] annots_step(vs[j], vs[j + 1], g[j].0, g[j].1)
}

/// The form update of `upsert_acroform` took `v` to `w`.
pub open spec fn form_updated(v: DocView, w: DocView, fids: Seq<ObjId>) -> bool {
    exists|v1: DocView, v2: DocView, v3: DocView, helv: ObjId, acro: ObjId|
        acroform_steps(v, v1, v2, v3, w, helv, acro, fids)
}

/// The form update of `upsert_acroform` refused `v`.
pub open spec fn form_refused(v: DocView) -> bool {
    exists|v1: DocView, v2: DocView, v3: DocView, helv: ObjId, acro: ObjId|
        acroform_refused(v, v1, v2, v3, helv, acro)
}

fn same_id(a: ObjId, b: ObjId) -> (r: bool)
    ensures
        r == (a == b),
{
    a.0 == b.0 && a.1 == b.1
}

fn contains_id(v: &Vec<ObjId>, x: ObjId) -> (r: bool)
    ensures
        r == v@.contains(x),
{
    let mut i: usize = 0;
    while i < v.len()
        invariant
            i <= v.len(),
            forall|q: int| 0 <= q < i ==> v@[q] != x,
        decreases v.len() - i,
    {
        if same_id(v[i], x) {
            proof {
                assert(v@[i as int] == x);
            }
            return true;
        }
        i = i + 1;
    }
    false
}

fn distinct_pages(pages: &Vec<ObjId>) -> (h: Vec<ObjId>)
    ensures
        h@ == heads(pages@, pages@.len()),
{
    let mut h: Vec<ObjId> = Vec::new();
    let mut i: usize = 0;
    while i < pages.len()
        invariant
            i <= pages.len(),
            h@ == heads(pages@, i as nat),
        decreases pages.len() - i,
    {
        if !contains_id(&h, pages[i]) {
            h.push(pages[i]);
        }
        i = i + 1;
    }
    h
}

fn ids_on(pages: &Vec<ObjId>, ids: &Vec<ObjId>, page: ObjId) -> (r: Vec<ObjId>)
    requires
        pages.len() == ids.len(),
    ensures
        r@ == on_page(pages@, ids@, page, pages@.len()),
{
    let mut r: Vec<ObjId> = Vec::new();
    let mut i: usize = 0;
    while i < pages.len()
        invariant
            i <= pages.len(),
            pages.len() == ids.len(),
            r@ == on_page(pages@, ids@, page, i as nat),
        decreases pages.len() - i,
    {
        if same_id(pages[i], page) {
            r.push(ids[i]);
        }
        i = i + 1;
    }
    r
}

/// Add the widgets to their pages' `/Annots`, one page at a time in the order the pages first
/// appear (`page_groups`), then register them all, in that order, in the `/AcroForm` (see
/// `upsert_acroform`); the ids as registered. Fails as `upsert_acroform` does.
pub fn attach_fields(doc: &mut PdfDoc, pages: &Vec<ObjId>, ids: &Vec<ObjId>) -> (r: Result<Vec<ObjId>, PdfError>)
    requires
        pages.len() == ids.len(),
        view_ids_sorted(objects_view(old(doc).objects@)),
        old(doc).max_id < u32::MAX - 1,
    ensures
        view_ids_sorted(objects_view(final(doc).objects@)),
        match r {
            Ok(all) => all@ == flatten(page_groups(pages@, ids@))
                && exists|vs: Seq<DocView>| annots_chain(vs, doc_view(*old(doc)), page_groups(pages@, ids@))
                    && form_updated(vs.last(), doc_view(*final(doc)), all@),
            Err(PdfError::Invalid(_)) => exists|vs: Seq<DocView>|
                annots_chain(vs, doc_view(*old(doc)), page_groups(pages@, ids@)) && form_refused(vs.last()),
            Err(_) => false,
        },
{
    let ghost g = page_groups(pages@, ids@);
    let h = distinct_pages(pages);
    let ghost v0 = doc_view(*doc);
    let ghost mut vs: Seq<DocView> = seq![v0];
    let mut all: Vec<ObjId> = Vec::new();
    let mut j: usize = 0;
    while j < h.len()
        invariant
            j <= h.len(),
            h@ == heads(pages@, pages@.len()),
            pages.len() == ids.len(),
            g == page_groups(pages@, ids@),
            g.len() == h.len(),
            vs.len() == j + 1,
            vs[0] == v0,
            vs.last() == doc_view(*doc),
            forall|q: int| 0 <= q < j ==> #[trigger] annots_step(vs[q], vs[q + 1], g[q].0, g[q].1),
            view_ids_sorted(objects_view(doc.objects@)),
            doc.max_id == v0.max_id,
            v0.max_id < u32::MAX - 1,
            all@ == flatten(g.take(j as int)),
        decreases h.len() - j,
    {
        let page = h[j];
        let group = ids_on(pages, ids, page);
        proof {
            assert(g[j as int] == (page, group@));
        }
        let ghost before = doc_view(*doc);
        let ghost old_doc_objs = doc.objects@;
        append_annots(doc, page, &group);
        proof {
            lemma_objects_view(old_doc_objs);
            assert(annots_step(before, doc_view(*doc), page, group@));
            let old_vs = vs;
            vs = vs.push(doc_view(*doc));
            assert forall|q: int| 0 <= q < j + 1 implies #[trigger] annots_step(vs[q], vs[q + 1], g[q].0, g[q].1) by {
                if q < j {
                    assert(vs[q] == old_vs[q] && vs[q + 1] == old_vs[q + 1]);
                }
            }
            assert(g.take(j as int + 1).drop_last() =~= g.take(j as int));
        }
        let mut k: usize = 0;
        let ghost start = all@;
        while k < group.len()
            invariant
                k <= group.len(),
                all@ == start + group@.take(k as int),
            decreases group.len() - k,
        {
            all.push(group[k]);
            k = k + 1;
            proof {
                assert(all@ =~= start + group@.take(k as int));
            }
        }
        proof {
            assert(group@.take(k as int) =~= group@);
        }
        j = j + 1;
    }
    proof {
        assert(g.take(j as int) =~= g);
        assert(annots_chain(vs, v0, g));
    }
    let ghost last = doc_view(*doc);
    match upsert_acroform(doc, &all) {
        Ok(()) => {
            proof {
                assert(form_updated(last, doc_view(*doc), all@));
            }
            Ok(all)
        },
        Err(e) => {
            proof {
                if e is Invalid {
                    assert(form_refused(last));
                }
            }
            Err(e)
        },
    }
}

/// How many of the kinds are text fields.
pub open spec fn text_count(kinds: Seq<FieldKind>) -> nat
    decreases kinds.len(),
{
    if kinds.len() == 0 {
        0
    } else {
        text_count(kinds.drop_last()) + if kinds.last() == FieldKind::Text { 1nat } else { 0nat }
    }
}

/// The note after fields were added: `fields=N text=T checkbox=C`.
pub open spec fn fields_note_text(kinds: Seq<FieldKind>) -> Seq<u8> {
    NOTE_FIELDS@ + decimal_spec(kinds.len()) + NOTE_TEXT@ + decimal_spec(text_count(kinds)) + NOTE_CHECKBOX@
        + decimal_spec((kinds.len() - text_count(kinds)) as nat)
}

/// The note for the fields added, of these kinds (see `fields_note_text`).
pub fn fields_note(kinds: &Vec<FieldKind>) -> (s: String)
    requires
        kinds.len() <= u32::MAX,
    ensures
        s@ == ascii_chars(fields_note_text(kinds@)),
{
    let mut t: u32 = 0;
    let mut i: usize = 0;
    while i < kinds.len()
        invariant
            i <= kinds.len(),
            kinds.len() <= u32::MAX,
            t == text_count(kinds@.take(i as int)),
            t <= i,
        decreases kinds.len() - i,
    {
        proof {
            assert(kinds@.take(i as int + 1).drop_last() =~= kinds@.take(i as int));
        }
        if kinds[i] == FieldKind::Text {
            t = t + 1;
        }
        i = i + 1;
    }
    proof {
        assert(kinds@.take(i as int) =~= kinds@);
        assert(NOTE_FIELDS@ =~= seq![102u8, 105, 101, 108, 100, 115, 61]);
        assert(NOTE_TEXT@ =~= seq![32u8, 116, 101, 120, 116, 61]);
        assert(NOTE_CHECKBOX@ =~= seq![32u8, 99, 104, 101, 99, 107, 98, 111, 120, 61]);
    }
    let n = kinds.len() as u32;
    let a = append_number(Vec::new(), &NOTE_FIELDS, n);
    let b = append_number(a, &NOTE_TEXT, t);
    let c = append_number(b, &NOTE_CHECKBOX, n - t);
    proof {
        assert(c@ =~= fields_note_text(kinds@));
    }
    ascii_string(c)
}

/// The note when no slot was found: `no empty slots; kept original`.
pub fn no_slots_note() -> (s: String)
    ensures
        s@ == ascii_chars(NOTE_NO_SLOTS@),
{
    proof {
        assert(NOTE_NO_SLOTS@ =~= seq![110u8, 111, 32, 101, 109, 112, 116, 121, 32, 115, 108, 111, 116, 115, 59, 32, 107,
            101, 112, 116, 32, 111, 114, 105, 103, 105, 110, 97, 108]);
    }
    ascii_string(ascii_const(&NOTE_NO_SLOTS))
}

} // verus!
