//! Walking the object graph: references an object holds, lookup by id, and the set of
//! objects the trailer reaches through `/Root` and `/Info`.

use vstd::prelude::*;
use std::collections::HashSet;
use super::object::{PdfObject, PdfDict, PdfDoc, ObjId, ObjView, obj_view, dview, objects_view, list_view, entry_value, dict_get, id_lt, object_at, refs_of, refs_list, refs_entries, reach_k, step_set, reachable, lemma_list_view, lemma_entries_view, lemma_objects_view};
use super::names::{ROOT, INFO};

verus! {

broadcast use vstd::std_specs::hash::group_hash_axioms;

/// Ids listed in strictly increasing order.
pub open spec fn view_ids_sorted(ov: Seq<(ObjId, ObjView)>) -> bool {
    forall|i: int, j: int| 0 <= i < j < ov.len() ==> id_lt(#[trigger] ov[i].0, #[trigger] ov[j].0)
}

/// The id as one number: object number, then 16 bits of generation.
pub open spec fn id_key(id: ObjId) -> u64 {
    (id.0 as u64 * 65536 + id.1 as u64) as u64
}

/// The reference in a dictionary value, as a one-element list, or nothing.
pub open spec fn ref_in(v: Option<ObjView>) -> Seq<ObjId> {
    match v {
        Some(ObjView::Reference(id)) => seq![id],
        _ => Seq::empty(),
    }
}

/// Where the walk starts: the trailer's `/Root` and `/Info` references.
pub open spec fn trailer_roots(trailer: Seq<(Seq<u8>, ObjView)>) -> Seq<ObjId> {
    ref_in(entry_value(trailer, ROOT@)) + ref_in(entry_value(trailer, INFO@))
}

/// The objects kept by a rewrite: those reached from `/Root` and `/Info`.
pub open spec fn live_from_roots(objects: Seq<(ObjId, ObjView)>, trailer: Seq<(Seq<u8>, ObjView)>) -> Set<ObjId> {
    reachable(objects, trailer_roots(trailer))
}

/// Sum of the reference counts of the objects whose ids are not in `s`.
pub open spec fn pending(ov: Seq<(ObjId, ObjView)>, s: Set<ObjId>) -> nat
    decreases ov.len(),
{
    if ov.len() == 0 {
        0
    } else {
        pending(ov.drop_last(), s) + (if s.contains(ov.last().0) { 0 } else { refs_of(ov.last().1).len() })
    }
}

proof fn lemma_key_injective(a: ObjId, b: ObjId)
    ensures
        id_key(a) == id_key(b) ==> a == b,
{
}

pub proof fn lemma_object_at_found(ov: Seq<(ObjId, ObjView)>, i: int)
    requires
        view_ids_sorted(ov),
        0 <= i < ov.len(),
    ensures
        object_at(ov, ov[i].0) == Some(ov[i].1),
    decreases ov.len(),
{
    if i < ov.len() - 1 {
        assert(id_lt(ov[i].0, ov.last().0));
        assert(view_ids_sorted(ov.drop_last()));
        lemma_object_at_found(ov.drop_last(), i);
    }
}

pub proof fn lemma_object_at_absent(ov: Seq<(ObjId, ObjView)>, id: ObjId)
    requires
        forall|i: int| 0 <= i < ov.len() ==> (#[trigger] ov[i]).0 != id,
    ensures
        object_at(ov, id) is None,
    decreases ov.len(),
{
    if ov.len() > 0 {
        assert(ov.last().0 != id);
        lemma_object_at_absent(ov.drop_last(), id);
    }
}

proof fn lemma_pending_absent(ov: Seq<(ObjId, ObjView)>, s: Set<ObjId>, x: ObjId)
    requires
        forall|i: int| 0 <= i < ov.len() ==> (#[trigger] ov[i]).0 != x,
    ensures
        pending(ov, s.insert(x)) == pending(ov, s),
    decreases ov.len(),
{
    if ov.len() > 0 {
        assert(ov.last().0 != x);
        lemma_pending_absent(ov.drop_last(), s, x);
    }
}

proof fn lemma_pending_insert(ov: Seq<(ObjId, ObjView)>, s: Set<ObjId>, x: ObjId)
    requires
        view_ids_sorted(ov),
        !s.contains(x),
    ensures
        pending(ov, s.insert(x)) + (match object_at(ov, x) {
            Some(o) => refs_of(o).len(),
            None => 0,
        }) == pending(ov, s),
    decreases ov.len(),
{
    if ov.len() > 0 {
        let d = ov.drop_last();
        assert(view_ids_sorted(d));
        if ov.last().0 == x {
            assert forall|i: int| 0 <= i < d.len() implies (#[trigger] d[i]).0 != x by {
                assert(id_lt(ov[i].0, ov.last().0));
            }
            lemma_pending_absent(d, s, x);
        } else {
            lemma_pending_insert(d, s, x);
        }
    }
}

proof fn lemma_reach_step(ov: Seq<(ObjId, ObjView)>, roots: Seq<ObjId>, x: ObjId, z: ObjId)
    requires
        reachable(ov, roots).contains(x),
        object_at(ov, x) is Some,
        refs_of(object_at(ov, x)->0).contains(z),
    ensures
        reachable(ov, roots).contains(z),
{
    let k = choose|k: nat| #[trigger] reach_k(ov, roots, k).contains(x);
    assert(reach_k(ov, roots, k).contains(x));
    assert(reach_k(ov, roots, k + 1) == step_set(ov, reach_k(ov, roots, k)));
    assert(reach_k(ov, roots, k + 1).contains(z));
}

proof fn lemma_roots_reached(ov: Seq<(ObjId, ObjView)>, roots: Seq<ObjId>, i: int)
    requires
        0 <= i < roots.len(),
    ensures
        reachable(ov, roots).contains(roots[i]),
{
    assert(reach_k(ov, roots, 0).contains(roots[i]));
}

proof fn lemma_closed_contains_reach(ov: Seq<(ObjId, ObjView)>, roots: Seq<ObjId>, s: Set<ObjId>, k: nat)
    requires
        forall|i: int| 0 <= i < roots.len() ==> s.contains(#[trigger] roots[i]),
        forall|y: ObjId, x: ObjId| #[trigger] s.contains(y) && object_at(ov, y) is Some && #[trigger] refs_of(object_at(ov, y)->0).contains(x) ==> s.contains(x),
    ensures
        reach_k(ov, roots, k).subset_of(s),
    decreases k,
{
    if k > 0 {
        lemma_closed_contains_reach(ov, roots, s, (k - 1) as nat);
    } else {
        assert forall|x: ObjId| reach_k(ov, roots, 0).contains(x) implies s.contains(x) by {
            let i = choose|i: int| 0 <= i < roots.len() && roots[i] == x;
        }
    }
}

/// Append the references inside `obj` to `stack`, depth first.
#[verifier::loop_isolation(false)]
pub fn collect_refs(obj: &PdfObject, stack: &mut Vec<ObjId>)
    ensures
        final(stack)@ == old(stack)@ + refs_of(obj_view(*obj)),
    decreases obj,
{
    match obj {
        PdfObject::Reference(id) => {
            stack.push(*id);
        },
        PdfObject::Array(a) => {
            let ghost start = stack@;
            let mut i: usize = 0;
            proof {
                lemma_list_view(a@);
                assert(list_view(a@).take(0) =~= Seq::<ObjView>::empty());
            }
            while i < a.len()
                invariant
                    i <= a.len(),
                    list_view(a@).len() == a@.len(),
                    forall|j: int| 0 <= j < a@.len() ==> #[trigger] list_view(a@)[j] == obj_view(a@[j]),
                    stack@ == start + refs_list(list_view(a@).take(i as int)),
                decreases a.len() - i,
            {
                proof {
                    vstd::std_specs::vec::axiom_vec_index_decreases(*a, i as int);
                }
                collect_refs(&a[i], stack);
                proof {
                    let lv = list_view(a@);
                    assert(lv.take(i + 1).drop_last() =~= lv.take(i as int));
                    assert(lv.take(i + 1).last() == obj_view(a@[i as int]));
                }
                i = i + 1;
            }
            proof {
                assert(list_view(a@).take(i as int) =~= list_view(a@));
            }
        },
        PdfObject::Dictionary(d) => {
            proof {
                assert(decreases_to!(obj => d));
            }
            collect_dict_refs(d, stack);
        },
        PdfObject::Stream(s) => {
            proof {
                assert(decreases_to!(obj => s.dict));
            }
            collect_dict_refs(&s.dict, stack);
        },
        _ => {},
    }
}

/// Append the references inside a dictionary's values to `stack`.
#[verifier::loop_isolation(false)]
pub fn collect_dict_refs(d: &PdfDict, stack: &mut Vec<ObjId>)
    ensures
        final(stack)@ == old(stack)@ + refs_entries(dview(*d)),
    decreases d,
{
    let ghost start = stack@;
    let mut i: usize = 0;
    proof {
        lemma_entries_view(d.entries@);
        assert(dview(*d).take(0) =~= Seq::<(Seq<u8>, ObjView)>::empty());
    }
    while i < d.entries.len()
        invariant
            i <= d.entries.len(),
            dview(*d).len() == d.entries@.len(),
            forall|j: int| 0 <= j < d.entries@.len() ==> #[trigger] dview(*d)[j] == (d.entries@[j].0@, obj_view(d.entries@[j].1)),
            stack@ == start + refs_entries(dview(*d).take(i as int)),
        decreases d.entries.len() - i,
    {
        proof {
            vstd::std_specs::vec::axiom_vec_index_decreases(d.entries, i as int);
        }
        collect_refs(&d.entries[i].1, stack);
        proof {
            let dv = dview(*d);
            assert(dv.take(i + 1).drop_last() =~= dv.take(i as int));
            assert(dv.take(i + 1).last().1 == obj_view(d.entries@[i as int].1));
        }
        i = i + 1;
    }
    proof {
        assert(dview(*d).take(i as int) =~= dview(*d));
    }
}

fn id_less(a: ObjId, b: ObjId) -> (r: bool)
    ensures
        r == id_lt(a, b),
{
    a.0 < b.0 || (a.0 == b.0 && a.1 < b.1)
}

/// Index of the object with id `id` (binary search over the sorted ids).
pub fn find_object(objects: &Vec<(ObjId, PdfObject)>, id: ObjId) -> (r: Option<usize>)
    requires
        view_ids_sorted(objects_view(objects@)),
    ensures
        match r {
            Some(i) => i < objects.len() && objects@[i as int].0 == id
                && object_at(objects_view(objects@), id) == Some(obj_view(objects@[i as int].1)),
            None => object_at(objects_view(objects@), id) is None,
        },
{
    let ghost ov = objects_view(objects@);
    proof {
        lemma_objects_view(objects@);
    }
    let mut lo: usize = 0;
    let mut hi: usize = objects.len();
    while lo < hi
        invariant
            lo <= hi <= objects.len(),
            ov == objects_view(objects@),
            ov.len() == objects@.len(),
            forall|j: int| 0 <= j < objects@.len() ==> #[trigger] ov[j] == (objects@[j].0, obj_view(objects@[j].1)),
            view_ids_sorted(ov),
            forall|j: int| 0 <= j < lo ==> id_lt(#[trigger] ov[j].0, id),
            forall|j: int| hi <= j < ov.len() ==> id_lt(id, #[trigger] ov[j].0),
        decreases hi - lo,
    {
        let mid = lo + (hi - lo) / 2;
        let m = objects[mid].0;
        proof {
            assert(ov[mid as int].0 == m);
        }
        if m.0 == id.0 && m.1 == id.1 {
            proof {
                lemma_object_at_found(ov, mid as int);
            }
            return Some(mid);
        } else if id_less(m, id) {
            proof {
                assert forall|j: int| 0 <= j < mid + 1 implies id_lt(#[trigger] ov[j].0, id) by {
                    if j < mid {
                        assert(id_lt(ov[j].0, ov[mid as int].0));
                    }
                }
            }
            lo = mid + 1;
        } else {
            proof {
                assert forall|j: int| mid <= j < ov.len() implies id_lt(id, #[trigger] ov[j].0) by {
                    if j > mid {
                        assert(id_lt(ov[mid as int].0, ov[j].0));
                    }
                }
            }
            hi = mid;
        }
    }
    proof {
        assert forall|i: int| 0 <= i < ov.len() implies (#[trigger] ov[i]).0 != id by {
            if i < lo {
                assert(id_lt(ov[i].0, id));
            } else {
                assert(id_lt(id, ov[i].0));
            }
        }
        lemma_object_at_absent(ov, id);
    }
    None
}

pub fn key_of(id: ObjId) -> (k: u64)
    ensures
        k == id_key(id),
{
    id.0 as u64 * 65536 + id.1 as u64
}

fn push_ref(v: Option<&PdfObject>, stack: &mut Vec<ObjId>)
    ensures
        final(stack)@ == old(stack)@ + ref_in(match v { Some(o) => Some(obj_view(*o)), None => None }),
{
    match v {
        Some(PdfObject::Reference(id)) => {
            stack.push(*id);
        },
        _ => {
            proof {
                assert(old(stack)@ + Seq::<ObjId>::empty() =~= old(stack)@);
            }
        },
    }
}

/// Ids of the objects that `/Root` and `/Info` reach, by an explicit depth-first walk.
pub fn reachable_ids(doc: &PdfDoc) -> (seen: HashSet<u64>)
    requires
        view_ids_sorted(objects_view(doc.objects@)),
    ensures
        forall|id: ObjId| #[trigger] seen@.contains(id_key(id))
            <==> live_from_roots(objects_view(doc.objects@), dview(doc.trailer)).contains(id),
{
    let ghost ov = objects_view(doc.objects@);
    let ghost roots = trailer_roots(dview(doc.trailer));
    let ghost reach = reachable(ov, roots);
    let mut stack: Vec<ObjId> = Vec::new();
    push_ref(dict_get(&doc.trailer, &ROOT), &mut stack);
    push_ref(dict_get(&doc.trailer, &INFO), &mut stack);
    proof {
        assert(stack@ =~= roots);
        assert forall|j: int| 0 <= j < stack@.len() implies reach.contains(#[trigger] stack@[j]) by {
            lemma_roots_reached(ov, roots, j);
        }
    }
    let mut seen: HashSet<u64> = HashSet::new();
    let ghost mut gseen: Set<ObjId> = Set::empty();
    while stack.len() > 0
        invariant
            ov == objects_view(doc.objects@),
            view_ids_sorted(ov),
            reach == reachable(ov, roots),
            forall|j: int| 0 <= j < stack@.len() ==> reach.contains(#[trigger] stack@[j]),
            gseen.subset_of(reach),
            forall|id: ObjId| #[trigger] seen@.contains(id_key(id)) <==> gseen.contains(id),
            forall|y: ObjId, x: ObjId| #[trigger] gseen.contains(y) && object_at(ov, y) is Some
                && #[trigger] refs_of(object_at(ov, y)->0).contains(x) ==> gseen.contains(x) || stack@.contains(x),
            forall|i: int| 0 <= i < roots.len() ==> gseen.contains(#[trigger] roots[i]) || stack@.contains(roots[i]),
        decreases pending(ov, gseen) + stack@.len(),
    {
        let ghost old_stack = stack@;
        let id = stack.pop().unwrap();
        let ghost popped = stack@;
        proof {
            assert(old_stack =~= popped.push(id));
            assert(reach.contains(id)) by {
                assert(old_stack[old_stack.len() - 1] == id);
            }
        }
        let k = key_of(id);
        if seen.contains(&k) {
            proof {
                assert(gseen.contains(id));
                assert forall|x: ObjId| old_stack.contains(x) && !gseen.contains(x) implies #[trigger] popped.contains(x) by {
                    let j = choose|j: int| 0 <= j < old_stack.len() && old_stack[j] == x;
                    if j < popped.len() {
                        assert(popped[j] == x);
                    }
                }
                assert forall|y: ObjId, x: ObjId| #[trigger] gseen.contains(y) && object_at(ov, y) is Some
                    && #[trigger] refs_of(object_at(ov, y)->0).contains(x) implies gseen.contains(x) || stack@.contains(x) by {
                    if !gseen.contains(x) {
                        assert(old_stack.contains(x));
                        assert(popped.contains(x));
                    }
                }
                assert forall|i: int| 0 <= i < roots.len() implies gseen.contains(#[trigger] roots[i]) || stack@.contains(roots[i]) by {
                    if !gseen.contains(roots[i]) {
                        assert(old_stack.contains(roots[i]));
                        assert(popped.contains(roots[i]));
                    }
                }
            }
            continue;
        }
        seen.insert(k);
        let ghost gold = gseen;
        proof {
            assert(!gseen.contains(id));
            lemma_pending_insert(ov, gseen, id);
            gseen = gseen.insert(id);
            assert forall|q: ObjId| #[trigger] seen@.contains(id_key(q)) <==> gseen.contains(q) by {
                lemma_key_injective(q, id);
            }
            assert forall|x: ObjId| old_stack.contains(x) && !gseen.contains(x) implies #[trigger] popped.contains(x) by {
                let j = choose|j: int| 0 <= j < old_stack.len() && old_stack[j] == x;
                if j < popped.len() {
                    assert(popped[j] == x);
                }
            }
        }
        match find_object(&doc.objects, id) {
            Some(i) => {
                collect_refs(&doc.objects[i].1, &mut stack);
                proof {
                    let o = object_at(ov, id)->0;
                    assert(stack@ == popped + refs_of(o));
                    assert forall|j: int| 0 <= j < stack@.len() implies reach.contains(#[trigger] stack@[j]) by {
                        if j >= popped.len() {
                            assert(stack@[j] == refs_of(o)[j - popped.len()]);
                            assert(refs_of(o).contains(stack@[j]));
                            lemma_reach_step(ov, roots, id, stack@[j]);
                        } else {
                            assert(stack@[j] == old_stack[j]);
                        }
                    }
                    assert forall|x: ObjId| #[trigger] popped.contains(x) implies stack@.contains(x) by {
                        let j = choose|j: int| 0 <= j < popped.len() && popped[j] == x;
                        assert(stack@[j] == x);
                    }
                    assert forall|x: ObjId| #[trigger] refs_of(o).contains(x) implies stack@.contains(x) by {
                        let j = choose|j: int| 0 <= j < refs_of(o).len() && refs_of(o)[j] == x;
                        assert(stack@[popped.len() + j] == x);
                    }
                }
            },
            None => {
                proof {
                    assert forall|j: int| 0 <= j < stack@.len() implies reach.contains(#[trigger] stack@[j]) by {
                        assert(stack@[j] == old_stack[j]);
                    }
                }
            },
        }
        proof {
            assert forall|x: ObjId| #[trigger] popped.contains(x) implies stack@.contains(x) by {
                let j = choose|j: int| 0 <= j < popped.len() && popped[j] == x;
                assert(stack@[j] == x);
            }
            assert forall|y: ObjId, x: ObjId| #[trigger] gseen.contains(y) && object_at(ov, y) is Some
                && #[trigger] refs_of(object_at(ov, y)->0).contains(x) implies gseen.contains(x) || stack@.contains(x) by {
                if y == id {
                    let o = object_at(ov, id)->0;
                    assert(stack@ == popped + refs_of(o));
                    let j = choose|j: int| 0 <= j < refs_of(o).len() && refs_of(o)[j] == x;
                    assert(stack@[popped.len() + j] == x);
                } else if !gseen.contains(x) {
                    assert(gold.contains(y));
                    assert(old_stack.contains(x));
                    assert(popped.contains(x));
                }
            }
            assert forall|i: int| 0 <= i < roots.len() implies gseen.contains(#[trigger] roots[i]) || stack@.contains(roots[i]) by {
                if !gseen.contains(roots[i]) {
                    assert(old_stack.contains(roots[i]));
                    assert(popped.contains(roots[i]));
                }
            }
        }
    }
    proof {
        assert forall|id: ObjId| #[trigger] seen@.contains(id_key(id)) <==> reach.contains(id) by {
            if reach.contains(id) {
                let k = choose|k: nat| #[trigger] reach_k(ov, roots, k).contains(id);
                lemma_closed_contains_reach(ov, roots, gseen, k);
            }
        }
    }
    seen
}

/// The objects whose id keys are in `keep`, in their order.
pub fn keep_objects(objects: Vec<(ObjId, PdfObject)>, keep: &HashSet<u64>) -> (out: Vec<(ObjId, PdfObject)>)
    ensures
        objects_view(out@) == objects_view(objects@).filter(|e: (ObjId, ObjView)| keep@.contains(id_key(e.0))),
        view_ids_sorted(objects_view(objects@)) ==> view_ids_sorted(objects_view(out@)),
{
    let ghost ov = objects_view(objects@);
    let ghost f = |e: (ObjId, ObjView)| keep@.contains(id_key(e.0));
    proof {
        lemma_objects_view(objects@);
    }
    let mut out: Vec<(ObjId, PdfObject)> = Vec::new();
    for e in it: objects.into_iter()
        invariant
            ov == objects_view(it.seq()),
            f == (|e: (ObjId, ObjView)| keep@.contains(id_key(e.0))),
            ov.len() == it.seq().len(),
            forall|j: int| 0 <= j < it.seq().len() ==> #[trigger] ov[j] == (it.seq()[j].0, obj_view(it.seq()[j].1)),
            objects_view(out@) == ov.take(it.index() as int).filter(f),
            view_ids_sorted(ov) ==> view_ids_sorted(objects_view(out@)),
            forall|j: int| 0 <= j < out@.len() ==> exists|k: int| 0 <= k < it.index() && #[trigger] out@[j].0 == it.seq()[k].0,
    {
        let ghost i = it.index();
        let k = key_of(e.0);
        let ghost before = out@;
        if keep.contains(&k) {
            out.push(e);
        }
        proof {
            lemma_objects_view(out@);
            lemma_objects_view(before);
            assert(ov.take(i + 1).drop_last() =~= ov.take(i as int));
            assert(ov.take(i + 1).last() == ov[i as int]);
            assert(ov[i as int].0 == e.0);
            assert(f(ov[i as int]) == keep@.contains(k));
            reveal(Seq::filter);
            assert(ov.take(i + 1).filter(f) == (if f(ov[i as int]) { ov.take(i as int).filter(f).push(ov[i as int]) } else { ov.take(i as int).filter(f) }));
            if keep@.contains(k) {
                assert(objects_view(out@) =~= objects_view(before).push(ov[i as int]));
                if view_ids_sorted(ov) {
                    assert forall|a: int, b: int| 0 <= a < b < objects_view(out@).len() implies id_lt(#[trigger] objects_view(out@)[a].0, #[trigger] objects_view(out@)[b].0) by {
                        if b == objects_view(out@).len() - 1 {
                            let kk = choose|kk: int| 0 <= kk < i && #[trigger] before[a].0 == it.seq()[kk].0;
                            assert(id_lt(ov[kk].0, ov[i as int].0));
                        } else {
                            assert(objects_view(before)[a] == objects_view(out@)[a]);
                            assert(objects_view(before)[b] == objects_view(out@)[b]);
                        }
                    }
                }
                assert forall|j: int| 0 <= j < out@.len() implies exists|kk: int| 0 <= kk < i + 1 && #[trigger] out@[j].0 == it.seq()[kk].0 by {
                    if j == out@.len() - 1 {
                        assert(out@[j].0 == it.seq()[i as int].0);
                    } else {
                        assert(out@[j] == before[j]);
                    }
                }
            } else {
                assert(objects_view(out@) =~= objects_view(before));
            }
        }
    }
    proof {
        assert(ov.take(ov.len() as int) =~= ov);
    }
    out
}

} // verus!
