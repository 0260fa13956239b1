//! The PDF object graph as plain values: what the rewrite passes read and change.

use vstd::prelude::*;

verus! {

/// An indirect object's number and generation.
pub type ObjId = (u32, u16);

/// A PDF object.
pub enum PdfObject {
    Null,
    Boolean(bool),
    Integer(i64),
    /// A real number: its shortest decimal text, and its value truncated toward zero.
    Real(Vec<u8>, i64),
    Name(Vec<u8>),
    /// A string and whether it is written in hexadecimal.
    Str(Vec<u8>, bool),
    Array(Vec<PdfObject>),
    Dictionary(PdfDict),
    Stream(PdfStream),
    Reference(ObjId),
}

/// A dictionary: entries in their order, keys distinct.
pub struct PdfDict {
    pub entries: Vec<(Vec<u8>, PdfObject)>,
}

/// A stream: its dictionary and raw (still encoded) bytes.
pub struct PdfStream {
    pub dict: PdfDict,
    pub content: Vec<u8>,
    pub allows_compression: bool,
    pub start_position: Option<usize>,
}

/// A whole document: header data, trailer, and the indirect objects in id order.
pub struct PdfDoc {
    pub version: Vec<u8>,
    pub binary_mark: Vec<u8>,
    pub max_id: u32,
    pub max_bookmark_id: u32,
    pub trailer: PdfDict,
    pub objects: Vec<(ObjId, PdfObject)>,
}

/// The value of a PDF object.
pub enum ObjView {
    Null,
    Boolean(bool),
    Integer(i64),
    Real(Seq<u8>, i64),
    Name(Seq<u8>),
    Str(Seq<u8>, bool),
    Array(Seq<ObjView>),
    Dictionary(Seq<(Seq<u8>, ObjView)>),
    Stream(Seq<(Seq<u8>, ObjView)>, Seq<u8>, bool, Option<usize>),
    Reference(ObjId),
}

/// The value of an object.
pub open spec fn obj_view(o: PdfObject) -> ObjView
    decreases o,
{
    match o {
        PdfObject::Null => ObjView::Null,
        PdfObject::Boolean(b) => ObjView::Boolean(b),
        PdfObject::Integer(i) => ObjView::Integer(i),
        PdfObject::Real(t, i) => ObjView::Real(t@, i),
        PdfObject::Name(n) => ObjView::Name(n@),
        PdfObject::Str(s, h) => ObjView::Str(s@, h),
        PdfObject::Array(v) => ObjView::Array(list_view(v@)),
        PdfObject::Dictionary(d) => ObjView::Dictionary(entries_view(d.entries@)),
        PdfObject::Stream(s) => ObjView::Stream(entries_view(s.dict.entries@), s.content@, s.allows_compression, s.start_position),
        PdfObject::Reference(id) => ObjView::Reference(id),
    }
}

/// The values of a list of objects.
pub open spec fn list_view(s: Seq<PdfObject>) -> Seq<ObjView>
    decreases s,
{
    if s.len() == 0 {
        Seq::empty()
    } else {
        list_view(s.drop_last()).push(obj_view(s.last()))
    }
}

/// Dictionary entries as (key bytes, value).
pub open spec fn entries_view(s: Seq<(Vec<u8>, PdfObject)>) -> Seq<(Seq<u8>, ObjView)>
    decreases s,
{
    if s.len() == 0 {
        Seq::empty()
    } else {
        entries_view(s.drop_last()).push((s.last().0@, obj_view(s.last().1)))
    }
}

/// The entries of a dictionary.
pub open spec fn dview(d: PdfDict) -> Seq<(Seq<u8>, ObjView)> {
    entries_view(d.entries@)
}

/// The objects of a document as (id, value).
pub open spec fn objects_view(s: Seq<(ObjId, PdfObject)>) -> Seq<(ObjId, ObjView)>
    decreases s.len(),
{
    if s.len() == 0 {
        Seq::empty()
    } else {
        objects_view(s.drop_last()).push((s.last().0, obj_view(s.last().1)))
    }
}

/// Ids ordered as numbers, then generations.
pub open spec fn id_lt(a: ObjId, b: ObjId) -> bool {
    a.0 < b.0 || (a.0 == b.0 && a.1 < b.1)
}

/// The value of the (last) object with id `id`, if any.
pub open spec fn object_at(objects: Seq<(ObjId, ObjView)>, id: ObjId) -> Option<ObjView>
    decreases objects.len(),
{
    if objects.len() == 0 {
        None
    } else if objects.last().0 == id {
        Some(objects.last().1)
    } else {
        object_at(objects.drop_last(), id)
    }
}

/// References inside an object, in the order a depth-first walk meets them.
pub open spec fn refs_of(o: ObjView) -> Seq<ObjId>
    decreases o,
{
    match o {
        ObjView::Reference(id) => seq![id],
        ObjView::Array(v) => refs_list(v),
        ObjView::Dictionary(e) => refs_entries(e),
        ObjView::Stream(e, _, _, _) => refs_entries(e),
        _ => Seq::empty(),
    }
}

/// References inside a list of objects.
pub open spec fn refs_list(s: Seq<ObjView>) -> Seq<ObjId>
    decreases s,
{
    if s.len() == 0 {
        Seq::empty()
    } else {
        refs_list(s.drop_last()) + refs_of(s.last())
    }
}

/// References inside the values of dictionary entries.
pub open spec fn refs_entries(s: Seq<(Seq<u8>, ObjView)>) -> Seq<ObjId>
    decreases s,
{
    if s.len() == 0 {
        Seq::empty()
    } else {
        refs_entries(s.drop_last()) + refs_of(s.last().1)
    }
}

/// Whether some entry has key `k`.
pub open spec fn key_in(s: Seq<(Seq<u8>, ObjView)>, k: Seq<u8>) -> bool {
    exists|i: int| 0 <= i < s.len() && #[trigger] s[i].0 == k
}

/// Every dictionary inside the value holds each key once.
pub open spec fn keys_distinct(o: ObjView) -> bool
    decreases o,
{
    match o {
        ObjView::Array(v) => list_keys_distinct(v),
        ObjView::Dictionary(e) => entries_keys_distinct(e),
        ObjView::Stream(e, _, _, _) => entries_keys_distinct(e),
        _ => true,
    }
}

/// Every dictionary inside the values holds each key once.
pub open spec fn list_keys_distinct(s: Seq<ObjView>) -> bool
    decreases s,
{
    if s.len() == 0 {
        true
    } else {
        list_keys_distinct(s.drop_last()) && keys_distinct(s.last())
    }
}

/// The entries have distinct keys, and every dictionary inside their values too.
pub open spec fn entries_keys_distinct(s: Seq<(Seq<u8>, ObjView)>) -> bool
    decreases s,
{
    if s.len() == 0 {
        true
    } else {
        entries_keys_distinct(s.drop_last()) && keys_distinct(s.last().1) && !key_in(s.drop_last(), s.last().0)
    }
}

/// Every dictionary of the document (trailer and objects, at any depth) holds each key once,
/// as lopdf's dictionaries (insertion-ordered maps) do.
pub open spec fn doc_keys_distinct(v: DocView) -> bool {
    &&& entries_keys_distinct(v.trailer)
    &&& forall|k: int| 0 <= k < v.objects.len() ==> keys_distinct(#[trigger] v.objects[k].1)
}

/// `s` plus everything an object in `s` refers to.
pub open spec fn step_set(objects: Seq<(ObjId, ObjView)>, s: Set<ObjId>) -> Set<ObjId> {
    s.union(Set::new(|x: ObjId| exists|y: ObjId| #[trigger] s.contains(y) && object_at(objects, y) is Some
        && refs_of(object_at(objects, y)->0).contains(x)))
}

/// Ids reached from `roots` in at most `k` steps.
pub open spec fn reach_k(objects: Seq<(ObjId, ObjView)>, roots: Seq<ObjId>, k: nat) -> Set<ObjId>
    decreases k,
{
    if k == 0 {
        roots.to_set()
    } else {
        step_set(objects, reach_k(objects, roots, (k - 1) as nat))
    }
}

/// Ids reached from `roots` by following references through the objects.
pub open spec fn reachable(objects: Seq<(ObjId, ObjView)>, roots: Seq<ObjId>) -> Set<ObjId> {
    Set::new(|x: ObjId| exists|k: nat| #[trigger] reach_k(objects, roots, k).contains(x))
}

/// Position of the first entry with key `key` at or after `i`, if any.
pub open spec fn key_pos_from(entries: Seq<(Seq<u8>, ObjView)>, key: Seq<u8>, i: int) -> Option<int>
    decreases entries.len() - i,
{
    if i < 0 || i >= entries.len() {
        None
    } else if entries[i].0 == key {
        Some(i)
    } else {
        key_pos_from(entries, key, i + 1)
    }
}

/// Position of the first entry with key `key`, if any (lopdf's dictionaries hold each key once).
pub open spec fn key_pos(entries: Seq<(Seq<u8>, ObjView)>, key: Seq<u8>) -> Option<int> {
    key_pos_from(entries, key, 0)
}

/// The value under `key` in dictionary entries.
pub open spec fn entry_value(entries: Seq<(Seq<u8>, ObjView)>, key: Seq<u8>) -> Option<ObjView> {
    match key_pos(entries, key) {
        Some(i) => Some(entries[i].1),
        None => None,
    }
}

/// The value under `key`.
pub open spec fn dict_value(d: PdfDict, key: Seq<u8>) -> Option<ObjView> {
    entry_value(dview(d), key)
}

/// Entries with `key` set: replaced in place when present, appended otherwise.
pub open spec fn dict_set_spec(d: Seq<(Seq<u8>, ObjView)>, key: Seq<u8>, value: ObjView) -> Seq<(Seq<u8>, ObjView)> {
    match key_pos(d, key) {
        Some(i) => d.update(i, (key, value)),
        None => d.push((key, value)),
    }
}

/// Entries without `key`: the last entry takes its place.
pub open spec fn dict_remove_spec(d: Seq<(Seq<u8>, ObjView)>, key: Seq<u8>) -> Seq<(Seq<u8>, ObjView)> {
    match key_pos(d, key) {
        Some(i) => d.update(i, d.last()).drop_last(),
        None => d,
    }
}

pub proof fn lemma_entries_view(s: Seq<(Vec<u8>, PdfObject)>)
    ensures
        entries_view(s).len() == s.len(),
        forall|i: int| 0 <= i < s.len() ==> #[trigger] entries_view(s)[i] == (s[i].0@, obj_view(s[i].1)),
    decreases s.len(),
{
    if s.len() > 0 {
        lemma_entries_view(s.drop_last());
    }
}

pub proof fn lemma_list_view(s: Seq<PdfObject>)
    ensures
        list_view(s).len() == s.len(),
        forall|i: int| 0 <= i < s.len() ==> #[trigger] list_view(s)[i] == obj_view(s[i]),
    decreases s.len(),
{
    if s.len() > 0 {
        lemma_list_view(s.drop_last());
    }
}

pub proof fn lemma_objects_view(s: Seq<(ObjId, PdfObject)>)
    ensures
        objects_view(s).len() == s.len(),
        forall|i: int| 0 <= i < s.len() ==> #[trigger] objects_view(s)[i] == (s[i].0, obj_view(s[i].1)),
    decreases s.len(),
{
    if s.len() > 0 {
        lemma_objects_view(s.drop_last());
    }
}

proof fn lemma_key_pos_skip(entries: Seq<(Seq<u8>, ObjView)>, key: Seq<u8>, i: int)
    requires
        0 <= i <= entries.len(),
        forall|j: int| 0 <= j < i ==> (#[trigger] entries[j]).0 != key,
    ensures
        key_pos(entries, key) == key_pos_from(entries, key, i),
    decreases i,
{
    if i > 0 {
        lemma_key_pos_skip(entries, key, i - 1);
        assert(entries[i - 1].0 != key);
    }
}

proof fn lemma_key_pos_found(entries: Seq<(Seq<u8>, ObjView)>, key: Seq<u8>)
    ensures
        match key_pos(entries, key) {
            Some(p) => 0 <= p < entries.len() && entries[p].0 == key && forall|j: int| 0 <= j < p ==> (#[trigger] entries[j]).0 != key,
            None => forall|j: int| 0 <= j < entries.len() ==> (#[trigger] entries[j]).0 != key,
        },
{
    lemma_key_pos_from(entries, key, 0);
}

proof fn lemma_key_pos_from(entries: Seq<(Seq<u8>, ObjView)>, key: Seq<u8>, i: int)
    requires
        0 <= i,
    ensures
        match key_pos_from(entries, key, i) {
            Some(p) => i <= p < entries.len() && entries[p].0 == key && forall|j: int| i <= j < p ==> (#[trigger] entries[j]).0 != key,
            None => forall|j: int| i <= j < entries.len() ==> (#[trigger] entries[j]).0 != key,
        },
    decreases entries.len() - i,
{
    if i < entries.len() && entries[i].0 != key {
        lemma_key_pos_from(entries, key, i + 1);
    }
}

/// Where the key is first found, or where the walk ends, is what `key_pos` reports.
pub proof fn lemma_key_pos_at(entries: Seq<(Seq<u8>, ObjView)>, key: Seq<u8>, p: int)
    requires
        0 <= p < entries.len(),
        entries[p].0 == key,
        forall|j: int| 0 <= j < p ==> (#[trigger] entries[j]).0 != key,
    ensures
        key_pos(entries, key) == Some(p),
{
    lemma_key_pos_skip(entries, key, p);
}

/// Each key occurs at most once among the entries (as in lopdf's map-backed dictionaries).
pub open spec fn keys_unique(d: Seq<(Seq<u8>, ObjView)>) -> bool {
    forall|i: int, j: int| 0 <= i < j < d.len() ==> (#[trigger] d[i]).0 != (#[trigger] d[j]).0
}

proof fn lemma_value_at(d: Seq<(Seq<u8>, ObjView)>, q: Seq<u8>)
    requires
        keys_unique(d),
    ensures
        forall|i: int| 0 <= i < d.len() && (#[trigger] d[i]).0 == q ==> entry_value(d, q) == Some(d[i].1),
        (forall|i: int| 0 <= i < d.len() ==> (#[trigger] d[i]).0 != q) ==> entry_value(d, q) is None,
{
    lemma_key_pos_found(d, q);
    assert forall|i: int| 0 <= i < d.len() && (#[trigger] d[i]).0 == q implies entry_value(d, q) == Some(d[i].1) by {
        lemma_key_pos_at(d, q, i);
    }
}

/// Setting `k` to `v` makes `v` the value under `k` and leaves every other key's value; keys
/// stay unique.
pub proof fn lemma_set_value(d: Seq<(Seq<u8>, ObjView)>, k: Seq<u8>, v: ObjView, q: Seq<u8>)
    requires
        keys_unique(d),
    ensures
        keys_unique(dict_set_spec(d, k, v)),
        entry_value(dict_set_spec(d, k, v), q) == (if q == k { Some(v) } else { entry_value(d, q) }),
{
    lemma_key_pos_found(d, k);
    let e = dict_set_spec(d, k, v);
    assert forall|i: int, j: int| 0 <= i < j < e.len() implies (#[trigger] e[i]).0 != (#[trigger] e[j]).0 by {
        if j == d.len() {
            assert(e[i].0 == d[i].0);
        } else {
            assert(e[i].0 == d[i].0 && e[j].0 == d[j].0);
        }
    }
    lemma_value_at(d, q);
    lemma_value_at(e, q);
    match key_pos(d, k) {
        Some(p) => {
            if q == k {
                assert(e[p] == (k, v));
            } else {
                assert forall|i: int| 0 <= i < e.len() && (#[trigger] e[i]).0 == q implies d[i] == e[i] by {}
                if exists|i: int| 0 <= i < d.len() && (#[trigger] d[i]).0 == q {
                    let i = choose|i: int| 0 <= i < d.len() && (#[trigger] d[i]).0 == q;
                    assert(e[i] == d[i]);
                } else {
                    assert forall|i: int| 0 <= i < e.len() implies (#[trigger] e[i]).0 != q by {
                        assert(e[i].0 == d[i].0);
                    }
                }
            }
        },
        None => {
            if q == k {
                assert(e[d.len() as int] == (k, v));
            } else {
                if exists|i: int| 0 <= i < d.len() && (#[trigger] d[i]).0 == q {
                    let i = choose|i: int| 0 <= i < d.len() && (#[trigger] d[i]).0 == q;
                    assert(e[i] == d[i]);
                } else {
                    assert forall|i: int| 0 <= i < e.len() implies (#[trigger] e[i]).0 != q by {
                        if i < d.len() {
                            assert(e[i] == d[i]);
                        }
                    }
                }
            }
        },
    }
}

/// Removing `k` leaves no value under it and every other key's value; keys stay unique.
pub proof fn lemma_remove_value(d: Seq<(Seq<u8>, ObjView)>, k: Seq<u8>, q: Seq<u8>)
    requires
        keys_unique(d),
    ensures
        keys_unique(dict_remove_spec(d, k)),
        entry_value(dict_remove_spec(d, k), q) == (if q == k { None } else { entry_value(d, q) }),
{
    lemma_key_pos_found(d, k);
    let e = dict_remove_spec(d, k);
    lemma_value_at(d, q);
    match key_pos(d, k) {
        Some(p) => {
            let n = d.len() as int;
            assert(e.len() == n - 1);
            assert forall|i: int| 0 <= i < e.len() implies (#[trigger] e[i]) == (if i == p { d[n - 1] } else { d[i] }) by {}
            assert forall|i: int, j: int| 0 <= i < j < e.len() implies (#[trigger] e[i]).0 != (#[trigger] e[j]).0 by {
                let a = if i == p { n - 1 } else { i };
                let b = if j == p { n - 1 } else { j };
                assert(e[i] == d[a] && e[j] == d[b] && a != b);
                if a < b {
                    assert(d[a].0 != d[b].0);
                } else {
                    assert(d[b].0 != d[a].0);
                }
            }
            lemma_value_at(e, q);
            if q == k {
                assert forall|i: int| 0 <= i < e.len() implies (#[trigger] e[i]).0 != q by {
                    let a = if i == p { n - 1 } else { i };
                    assert(e[i] == d[a] && a != p);
                    if a < p {
                        assert(d[a].0 != d[p].0);
                    } else {
                        assert(d[p].0 != d[a].0);
                    }
                }
            } else if exists|i: int| 0 <= i < d.len() && (#[trigger] d[i]).0 == q {
                let i = choose|i: int| 0 <= i < d.len() && (#[trigger] d[i]).0 == q;
                assert(i != p);
                let j = if i == n - 1 { p } else { i };
                assert(e[j] == d[i]);
            } else {
                assert forall|i: int| 0 <= i < e.len() implies (#[trigger] e[i]).0 != q by {
                    let a = if i == p { n - 1 } else { i };
                    assert(e[i] == d[a]);
                }
            }
        },
        None => {},
    }
}

fn bytes_eq(a: &[u8], b: &[u8]) -> (r: bool)
    ensures
        r == (a@ == b@),
{
    if a.len() != b.len() {
        return false;
    }
    let mut i: usize = 0;
    while i < a.len()
        invariant
            a.len() == b.len(),
            i <= a.len(),
            forall|j: int| 0 <= j < i ==> a@[j] == b@[j],
        decreases a.len() - i,
    {
        if a[i] != b[i] {
            return false;
        }
        i = i + 1;
    }
    proof {
        assert(a@ =~= b@);
    }
    true
}

/// Position of `key` in a dictionary's entries (its first entry with that key).
pub fn find_key(d: &PdfDict, key: &[u8]) -> (r: Option<usize>)
    ensures
        match r {
            Some(i) => key_pos(dview(*d), key@) == Some(i as int) && i < d.entries.len(),
            None => key_pos(dview(*d), key@) is None,
        },
{
    let ghost dv = dview(*d);
    proof {
        lemma_entries_view(d.entries@);
    }
    let mut i: usize = 0;
    while i < d.entries.len()
        invariant
            i <= d.entries.len(),
            dv == dview(*d),
            dv.len() == d.entries.len(),
            forall|j: int| 0 <= j < d.entries@.len() ==> #[trigger] dv[j] == (d.entries@[j].0@, obj_view(d.entries@[j].1)),
            forall|j: int| 0 <= j < i ==> (#[trigger] dv[j]).0 != key@,
        decreases d.entries.len() - i,
    {
        let hit = bytes_eq(d.entries[i].0.as_slice(), key);
        proof {
            assert(dv[i as int] == (d.entries@[i as int].0@, obj_view(d.entries@[i as int].1)));
        }
        if hit {
            proof {
                lemma_key_pos_at(dv, key@, i as int);
            }
            return Some(i);
        }
        i = i + 1;
    }
    proof {
        lemma_key_pos_found(dv, key@);
    }
    None
}

/// The value under `key`, if present.
pub fn dict_get<'a>(d: &'a PdfDict, key: &[u8]) -> (r: Option<&'a PdfObject>)
    ensures
        match r {
            Some(v) => dict_value(*d, key@) == Some(obj_view(*v)),
            None => dict_value(*d, key@) is None,
        },
{
    proof {
        lemma_entries_view(d.entries@);
    }
    match find_key(d, key) {
        Some(i) => Some(&d.entries[i].1),
        None => None,
    }
}

/// Set `key` to `value` (in place when present, else appended).
pub fn dict_set(d: &mut PdfDict, key: &[u8], value: PdfObject)
    ensures
        dview(*final(d)) == dict_set_spec(dview(*old(d)), key@, obj_view(value)),
{
    let ghost ov = dview(*d);
    let ghost vv = obj_view(value);
    proof {
        lemma_entries_view(d.entries@);
    }
    match find_key(d, key) {
        Some(i) => {
            let k = copy_bytes(key);
            d.entries.set(i, (k, value));
            proof {
                lemma_entries_view(d.entries@);
                assert(dview(*d) =~= ov.update(i as int, (key@, vv)));
            }
        },
        None => {
            let k = copy_bytes(key);
            d.entries.push((k, value));
            proof {
                lemma_entries_view(d.entries@);
                assert(dview(*d) =~= ov.push((key@, vv)));
            }
        },
    }
}

/// Remove `key`; the last entry moves into its place.
pub fn dict_remove(d: &mut PdfDict, key: &[u8])
    ensures
        dview(*final(d)) == dict_remove_spec(dview(*old(d)), key@),
{
    let ghost o = dview(*d);
    proof {
        lemma_entries_view(d.entries@);
    }
    match find_key(d, key) {
        Some(i) => {
            let moved = d.entries.pop();
            match moved {
                Some(e) => {
                    if i < d.entries.len() {
                        d.entries.set(i, e);
                    }
                },
                None => {},
            }
            proof {
                lemma_entries_view(d.entries@);
                assert(dview(*d) =~= o.update(i as int, o.last()).drop_last());
            }
        },
        None => {},
    }
}

/// A copy of `s`.
pub fn copy_bytes(s: &[u8]) -> (r: Vec<u8>)
    ensures
        r@ == s@,
{
    let mut r: Vec<u8> = Vec::new();
    let mut i: usize = 0;
    while i < s.len()
        invariant
            i <= s.len(),
            r@ == s@.take(i as int),
        decreases s.len() - i,
    {
        r.push(s[i]);
        i = i + 1;
        proof {
            assert(r@ =~= s@.take(i as int));
        }
    }
    proof {
        assert(s@.take(i as int) =~= s@);
    }
    r
}

/// A document's value.
pub struct DocView {
    pub version: Seq<u8>,
    pub binary_mark: Seq<u8>,
    pub max_id: u32,
    pub max_bookmark_id: u32,
    pub trailer: Seq<(Seq<u8>, ObjView)>,
    pub objects: Seq<(ObjId, ObjView)>,
}

/// The value of a document.
pub open spec fn doc_view(d: PdfDoc) -> DocView {
    DocView {
        version: d.version@,
        binary_mark: d.binary_mark@,
        max_id: d.max_id,
        max_bookmark_id: d.max_bookmark_id,
        trailer: dview(d.trailer),
        objects: objects_view(d.objects@),
    }
}

/// The value of a stream object.
pub open spec fn stream_view(s: PdfStream) -> ObjView {
    ObjView::Stream(dview(s.dict), s.content@, s.allows_compression, s.start_position)
}

/// A copy of an object.
#[verifier::loop_isolation(false)]
pub fn copy_object(o: &PdfObject) -> (r: PdfObject)
    ensures
        obj_view(r) == obj_view(*o),
    decreases o,
{
    match o {
        PdfObject::Null => PdfObject::Null,
        PdfObject::Boolean(b) => PdfObject::Boolean(*b),
        PdfObject::Integer(i) => PdfObject::Integer(*i),
        PdfObject::Real(t, i) => PdfObject::Real(copy_bytes(t.as_slice()), *i),
        PdfObject::Name(n) => PdfObject::Name(copy_bytes(n.as_slice())),
        PdfObject::Str(t, h) => PdfObject::Str(copy_bytes(t.as_slice()), *h),
        PdfObject::Array(v) => {
            let mut out: Vec<PdfObject> = Vec::new();
            let mut i: usize = 0;
            proof {
                lemma_list_view(v@);
            }
            while i < v.len()
                invariant
                    i <= v.len(),
                    out@.len() == i,
                    list_view(v@).len() == v@.len(),
                    forall|j: int| 0 <= j < i ==> #[trigger] obj_view(out@[j]) == obj_view(v@[j]),
                decreases v.len() - i,
            {
                proof {
                    vstd::std_specs::vec::axiom_vec_index_decreases(*v, i as int);
                }
                out.push(copy_object(&v[i]));
                i = i + 1;
            }
            proof {
                lemma_list_view(out@);
                lemma_list_view(v@);
                assert(list_view(out@) =~= list_view(v@));
            }
            PdfObject::Array(out)
        },
        PdfObject::Dictionary(d) => {
            assert(decreases_to!(o => d));
            PdfObject::Dictionary(copy_dict(d))
        },
        PdfObject::Stream(st) => {
            assert(decreases_to!(o => st.dict));
            PdfObject::Stream(PdfStream {
                dict: copy_dict(&st.dict),
                content: copy_bytes(st.content.as_slice()),
                allows_compression: st.allows_compression,
                start_position: st.start_position,
            })
        },
        PdfObject::Reference(id) => PdfObject::Reference(*id),
    }
}

/// A copy of a dictionary.
#[verifier::loop_isolation(false)]
pub fn copy_dict(d: &PdfDict) -> (r: PdfDict)
    ensures
        dview(r) == dview(*d),
    decreases d,
{
    let mut out: Vec<(Vec<u8>, PdfObject)> = Vec::new();
    let mut i: usize = 0;
    proof {
        lemma_entries_view(d.entries@);
    }
    while i < d.entries.len()
        invariant
            i <= d.entries.len(),
            out@.len() == i,
            forall|j: int| 0 <= j < i ==> (#[trigger] out@[j]).0@ == d.entries@[j].0@ && obj_view(out@[j].1) == obj_view(d.entries@[j].1),
        decreases d.entries.len() - i,
    {
        proof {
            vstd::std_specs::vec::axiom_vec_index_decreases(d.entries, i as int);
        }
        let k = copy_bytes(d.entries[i].0.as_slice());
        let v = copy_object(&d.entries[i].1);
        out.push((k, v));
        i = i + 1;
    }
    proof {
        lemma_entries_view(out@);
        lemma_entries_view(d.entries@);
        assert(entries_view(out@) =~= entries_view(d.entries@));
    }
    PdfDict { entries: out }
}

/// Setting a key to the value it already has changes nothing.
pub proof fn lemma_set_idempotent(d: Seq<(Seq<u8>, ObjView)>, k: Seq<u8>, v: ObjView)
    ensures
        dict_set_spec(dict_set_spec(d, k, v), k, v) == dict_set_spec(d, k, v),
{
    lemma_key_pos_found(d, k);
    let e = dict_set_spec(d, k, v);
    match key_pos(d, k) {
        Some(p) => {
            lemma_key_pos_at(e, k, p);
            assert(e.update(p, (k, v)) =~= e);
        },
        None => {
            lemma_key_pos_at(e, k, d.len() as int);
            assert(e.update(d.len() as int, (k, v)) =~= e);
        },
    }
}

} // verus!
