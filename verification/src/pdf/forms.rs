//! Field kinds and names of the form fields that the form pass adds.

use vstd::prelude::*;
use vstd::relations::injective_on;
use vstd::set_lib::{lemma_int_range, lemma_len_subset, lemma_map_size, set_int_range};
use vstd::string::StringExecFns;
use super::text::{ascii_chars, ascii_string, concat, decimal, decimal_spec};

verus! {

/// A text field or a checkbox.
#[derive(Clone, Copy, Debug, PartialEq, Eq, Structural)]
pub enum FieldKind {
    Text,
    Checkbox,
}

/// The name a field kind is reported under.
pub open spec fn kind_name(k: FieldKind) -> Seq<char> {
    match k {
        FieldKind::Text => seq!['t', 'e', 'x', 't'],
        FieldKind::Checkbox => seq!['c', 'h', 'e', 'c', 'k', 'b', 'o', 'x'],
    }
}

impl FieldKind {
    /// `"text"` or `"checkbox"`.
    pub fn as_str(self) -> (s: &'static str)
        ensures
            s@ == kind_name(self),
    {
        match self {
            FieldKind::Text => {
                proof {
                    reveal_strlit("text");
                }
                "text"
            },
            FieldKind::Checkbox => {
                proof {
                    reveal_strlit("checkbox");
                }
                "checkbox"
            },
        }
    }
}


/// Decimal digits of `n` as text.
pub open spec fn digits(n: nat) -> Seq<char> {
    ascii_chars(decimal_spec(n))
}

/// `Text` or `Check`: what automatic names start with.
pub open spec fn auto_prefix(k: FieldKind) -> Seq<char> {
    match k {
        FieldKind::Text => seq!['T', 'e', 'x', 't'],
        FieldKind::Checkbox => seq!['C', 'h', 'e', 'c', 'k'],
    }
}

/// The automatic name number `n` of a kind: `Text1`, `Check2`, ...
pub open spec fn auto_name(k: FieldKind, n: nat) -> Seq<char> {
    auto_prefix(k) + digits(n)
}

/// A caption with a number appended: `Name_2`, ...
pub open spec fn suffixed(base: Seq<char>, n: nat) -> Seq<char> {
    base + seq!['_'] + digits(n)
}

/// The texts of a list of strings.
pub open spec fn views(s: Seq<String>) -> Seq<Seq<char>> {
    s.map_values(|x: String| x@)
}

/// How one slot is named, given the names already in use (`used`): its caption when it has
/// one that is free; the caption with the smallest free `_n` (from 2) when the caption is
/// taken; without a caption, the smallest free automatic name of its kind (from 1).
pub open spec fn slot_named(kind: FieldKind, caption: Seq<char>, name: Seq<char>, used: Seq<Seq<char>>) -> bool {
    if caption.len() == 0 {
        exists|n: nat| #![trigger auto_name(kind, n)] 1 <= n && name == auto_name(kind, n) && !used.contains(name)
            && forall|m: nat| 1 <= m < n ==> used.contains(#[trigger] auto_name(kind, m))
    } else if !used.contains(caption) {
        name == caption
    } else {
        exists|n: nat| #![trigger suffixed(caption, n)] 2 <= n && name == suffixed(caption, n) && !used.contains(name)
            && forall|m: nat| 2 <= m < n ==> used.contains(#[trigger] suffixed(caption, m))
    }
}

proof fn lemma_decimal_len(n: nat)
    ensures
        decimal_spec(n).len() >= 1,
        n >= 10 ==> decimal_spec(n).len() >= 2,
    decreases n,
{
    if n >= 10 {
        lemma_decimal_len(n / 10);
    }
}

proof fn lemma_decimal_injective(a: nat, b: nat)
    requires
        decimal_spec(a) == decimal_spec(b),
    ensures
        a == b,
    decreases a,
{
    lemma_decimal_len(a);
    lemma_decimal_len(b);
    let da = decimal_spec(a);
    let db = decimal_spec(b);
    if a < 10 && b < 10 {
        assert(da == seq![(48 + a) as u8]);
        assert(db == seq![(48 + b) as u8]);
        assert(da[0] == (48 + a) as u8);
        assert(db[0] == (48 + b) as u8);
    } else if a >= 10 && b >= 10 {
        assert(da == decimal_spec(a / 10).push((48 + a % 10) as u8));
        assert(db == decimal_spec(b / 10).push((48 + b % 10) as u8));
        assert(da.last() == (48 + a % 10) as u8);
        assert(db.last() == (48 + b % 10) as u8);
        assert(da.drop_last() =~= decimal_spec(a / 10));
        assert(db.drop_last() =~= decimal_spec(b / 10));
        lemma_decimal_injective(a / 10, b / 10);
    } else if a < 10 {
        assert(da == seq![(48 + a) as u8]);
        assert(da.len() == 1);
    } else {
        assert(db == seq![(48 + b) as u8]);
        assert(db.len() == 1);
    }
}

proof fn lemma_digits_injective(a: nat, b: nat)
    requires
        digits(a) == digits(b),
    ensures
        a == b,
{
    let da = decimal_spec(a);
    let db = decimal_spec(b);
    assert(digits(a).len() == da.len());
    assert(digits(b).len() == db.len());
    assert forall|i: int| 0 <= i < da.len() implies da[i] == db[i] by {
        assert(digits(a)[i] == digits(b)[i]);
        assert(digits(a)[i] == da[i] as char);
        assert(digits(b)[i] == db[i] as char);
        assert(da[i] as char == db[i] as char);
        assert((da[i] as char) as u32 == da[i] as u32);
        assert((db[i] as char) as u32 == db[i] as u32);
    }
    assert(da =~= db);
    lemma_decimal_injective(a, b);
}

proof fn lemma_auto_injective(k: FieldKind, a: nat, b: nat)
    requires
        auto_name(k, a) == auto_name(k, b),
    ensures
        a == b,
{
    let p = auto_prefix(k);
    assert(auto_name(k, a).subrange(p.len() as int, auto_name(k, a).len() as int) =~= digits(a));
    assert(auto_name(k, b).subrange(p.len() as int, auto_name(k, b).len() as int) =~= digits(b));
    lemma_digits_injective(a, b);
}

proof fn lemma_suffixed_injective(base: Seq<char>, a: nat, b: nat)
    requires
        suffixed(base, a) == suffixed(base, b),
    ensures
        a == b,
{
    let l = base.len() as int + 1;
    assert(suffixed(base, a).subrange(l, suffixed(base, a).len() as int) =~= digits(a));
    assert(suffixed(base, b).subrange(l, suffixed(base, b).len() as int) =~= digits(b));
    lemma_digits_injective(a, b);
}

/// When distinct names `f(lo)`, ..., `f(hi - 1)` all occur in `used`, there are at most
/// as many of them as `used` has entries.
proof fn lemma_room(used: Seq<Seq<char>>, f: spec_fn(int) -> Seq<char>, lo: int, hi: int)
    requires
        lo <= hi,
        forall|a: int, b: int| lo <= a < hi && lo <= b < hi && #[trigger] f(a) == #[trigger] f(b) ==> a == b,
        forall|m: int| lo <= m < hi ==> used.contains(#[trigger] f(m)),
    ensures
        hi - lo <= used.len(),
{
    let x = set_int_range(lo, hi);
    lemma_int_range(lo, hi);
    let y = x.map(f);
    assert(injective_on(f, x));
    lemma_map_size(x, y, f);
    assert(y.subset_of(used.to_set())) by {
        assert forall|e: Seq<char>| y.contains(e) implies used.to_set().contains(e) by {
            let m = choose|m: int| x.contains(m) && f(m) == e;
            assert(used.contains(f(m)));
        }
    }
    vstd::seq_lib::seq_to_set_is_finite(used);
    lemma_len_subset(y, used.to_set());
    used.lemma_cardinality_of_set();
}

proof fn lemma_views_push(s: Seq<String>, x: String)
    ensures
        views(s.push(x)) == views(s).push(x@),
{
    assert(views(s.push(x)) =~= views(s).push(x@)) by {
        assert forall|q: int| 0 <= q < s.len() + 1 implies views(s.push(x))[q] == views(s).push(x@)[q] by {
            if q < s.len() {
                assert(s.push(x)[q] == s[q]);
            }
        }
    }
}

fn name_in(used: &Vec<String>, s: &String) -> (r: bool)
    ensures
        r == views(used@).contains(s@),
{
    let mut j: usize = 0;
    while j < used.len()
        invariant
            j <= used.len(),
            forall|q: int| 0 <= q < j ==> used@[q]@ != s@,
        decreases used.len() - j,
    {
        if used[j] == *s {
            proof {
                assert(views(used@)[j as int] == s@);
            }
            return true;
        }
        j = j + 1;
    }
    proof {
        if views(used@).contains(s@) {
            let q = choose|q: int| 0 <= q < views(used@).len() && views(used@)[q] == s@;
            assert(used@[q]@ == s@);
        }
    }
    false
}

fn decimal_text(prefix: &[u8], n: u32) -> (s: String)
    requires
        forall|i: int| 0 <= i < prefix@.len() ==> prefix@[i] < 128,
    ensures
        s@ == ascii_chars(prefix@) + digits(n as nat),
{
    let d = decimal(n as u64);
    let b = concat(prefix, d.as_slice());
    proof {
        assert forall|i: int| 0 <= i < d@.len() implies d@[i] < 128 by {
            lemma_decimal_ascii(n as nat, i);
        }
        assert(ascii_chars(b@) =~= ascii_chars(prefix@) + digits(n as nat));
    }
    ascii_string(b)
}

proof fn lemma_decimal_ascii(n: nat, i: int)
    requires
        0 <= i < decimal_spec(n).len(),
    ensures
        48 <= decimal_spec(n)[i] <= 57,
    decreases n,
{
    if n >= 10 && i < decimal_spec(n / 10).len() {
        lemma_decimal_ascii(n / 10, i);
    }
}

/// The automatic name number `n` of a kind.
fn auto_text(kind: FieldKind, n: u32) -> (s: String)
    ensures
        s@ == auto_name(kind, n as nat),
{
    match kind {
        FieldKind::Text => {
            let s = decimal_text(&[84u8, 101, 120, 116], n);
            proof {
                assert(ascii_chars(seq![84u8, 101, 120, 116]) =~= auto_prefix(kind));
            }
            s
        },
        FieldKind::Checkbox => {
            let s = decimal_text(&[67u8, 104, 101, 99, 107], n);
            proof {
                assert(ascii_chars(seq![67u8, 104, 101, 99, 107]) =~= auto_prefix(kind));
            }
            s
        },
    }
}

/// The caption with `_n` appended.
fn suffixed_text(base: &String, n: u32) -> (s: String)
    ensures
        s@ == suffixed(base@, n as nat),
{
    let tail = decimal_text(&[95u8], n);
    proof {
        assert(ascii_chars(seq![95u8]) =~= seq!['_']);
    }
    let mut s = base.clone();
    s.append(tail.as_str());
    proof {
        assert(s@ =~= suffixed(base@, n as nat));
    }
    s
}

/// Naming never clashes: when every slot is named as `name_slots` names it, no two slots
/// share a name and no slot takes the name of a field the document had already.
pub proof fn lemma_names_unique(kinds: Seq<FieldKind>, captions: Seq<Seq<char>>, names: Seq<Seq<char>>, existing: Seq<Seq<char>>)
    requires
        captions.len() == kinds.len(),
        names.len() == kinds.len(),
        forall|i: int| 0 <= i < kinds.len() ==> #[trigger] slot_named(kinds[i], captions[i], names[i], existing + names.take(i)),
    ensures
        forall|i: int, j: int| 0 <= i < j < names.len() ==> names[i] != names[j],
        forall|i: int| 0 <= i < names.len() ==> !existing.contains(#[trigger] names[i]),
{
    assert forall|i: int| 0 <= i < names.len() implies !(existing + names.take(i)).contains(#[trigger] names[i]) by {
        assert(slot_named(kinds[i], captions[i], names[i], existing + names.take(i)));
    }
    assert forall|i: int, j: int| 0 <= i < j < names.len() implies names[i] != names[j] by {
        assert(!(existing + names.take(j)).contains(names[j]));
        assert((existing + names.take(j))[existing.len() + i] == names[i]);
    }
    assert forall|i: int| 0 <= i < names.len() implies !existing.contains(#[trigger] names[i]) by {
        assert(!(existing + names.take(i)).contains(names[i]));
        if existing.contains(names[i]) {
            let q = choose|q: int| 0 <= q < existing.len() && existing[q] == names[i];
            assert((existing + names.take(i))[q] == names[i]);
        }
    }
}

/// Give every slot a name no other field has. `names[i]` comes in as the caption found
/// beside slot `i` (empty when there is none) and goes out as its field name; `existing`
/// holds the names of the fields the document has already.
pub fn name_slots(kinds: &Vec<FieldKind>, names: &mut Vec<String>, existing: &Vec<String>)
    requires
        old(names)@.len() == kinds@.len(),
        existing@.len() + kinds@.len() <= 0xFFFF_FFF0,
    ensures
        final(names)@.len() == old(names)@.len(),
        forall|i: int| 0 <= i < kinds@.len() ==> #[trigger] slot_named(kinds@[i], old(names)@[i]@, final(names)@[i]@,
            views(existing@) + views(final(names)@).take(i)),
{
    let ghost captions = names@;
    let mut used: Vec<String> = Vec::new();
    let mut e: usize = 0;
    while e < existing.len()
        invariant
            e <= existing.len(),
            views(used@) == views(existing@).take(e as int),
            used@.len() == e,
        decreases existing.len() - e,
    {
        let ghost prev = used@;
        let c = existing[e].clone();
        used.push(c);
        proof {
            lemma_views_push(prev, c);
            assert(views(existing@).take(e as int + 1) =~= views(existing@).take(e as int).push(existing@[e as int]@));
        }
        e = e + 1;
    }
    proof {
        assert(views(existing@).take(existing@.len() as int) =~= views(existing@));
        assert(views(names@).take(0) =~= Seq::<Seq<char>>::empty());
        assert(views(used@) =~= views(existing@) + views(names@).take(0));
    }
    let mut text_n: u32 = 1;
    let mut check_n: u32 = 1;
    let mut i: usize = 0;
    while i < names.len()
        invariant
            i <= names.len(),
            names@.len() == captions.len(),
            captions.len() == kinds@.len(),
            existing@.len() + kinds@.len() <= 0xFFFF_FFF0,
            forall|j: int| i <= j < names@.len() ==> names@[j] == captions[j],
            views(used@) == views(existing@) + views(names@).take(i as int),
            used@.len() == existing@.len() + i,
            1 <= text_n,
            1 <= check_n,
            forall|m: nat| 1 <= m < text_n ==> views(used@).contains(#[trigger] auto_name(FieldKind::Text, m)),
            forall|m: nat| 1 <= m < check_n ==> views(used@).contains(#[trigger] auto_name(FieldKind::Checkbox, m)),
            forall|j: int| 0 <= j < i ==> #[trigger] slot_named(kinds@[j], captions[j]@, names@[j]@,
                views(existing@) + views(names@).take(j)),
        decreases names.len() - i,
    {
        let ghost u = views(used@);
        let ghost names0 = names@;
        let kind = kinds[i];
        proof {
            assert(u.len() == existing@.len() + i);
        }
        if names[i].as_str().is_empty() {
            let mut n: u32 = match kind {
                FieldKind::Text => text_n,
                FieldKind::Checkbox => check_n,
            };
            loop
                invariant
                    1 <= n,
                    u == views(used@),
                    u.len() == existing@.len() + i,
                    i < kinds@.len(),
                    captions.len() == kinds@.len(),
                    existing@.len() + kinds@.len() <= 0xFFFF_FFF0,
                    forall|m: nat| 1 <= m < n ==> u.contains(#[trigger] auto_name(kind, m)),
                    names@.len() == names0.len(),
                    forall|j: int| 0 <= j < names0.len() && j != i ==> names@[j] == names0[j],
                    names0.len() == captions.len(),
                    names0[i as int] == captions[i as int],
                    captions[i as int]@.len() == 0,
                ensures
                    names@[i as int]@ == auto_name(kind, n as nat),
                    slot_named(kind, captions[i as int]@, names@[i as int]@, u),
                    n <= 0xFFFF_FFF0,
                decreases u.len() + 1 - n,
            {
                proof {
                    assert forall|a: int, b: int| 1 <= a < n + 1 && 1 <= b < n + 1
                        && #[trigger] auto_name(kind, a as nat) == #[trigger] auto_name(kind, b as nat) implies a == b by {
                        lemma_auto_injective(kind, a as nat, b as nat);
                    }
                    lemma_room(u, |m: int| auto_name(kind, m as nat), 1, n as int);
                }
                let cand = auto_text(kind, n);
                let taken = name_in(&used, &cand);
                if !taken {
                    proof {
                        assert(slot_named(kind, captions[i as int]@, cand@, u));
                    }
                    names.set(i, cand);
                    break;
                }
                proof {
                    lemma_room(u, |m: int| auto_name(kind, m as nat), 1, n as int + 1);
                }
                n = n + 1;
            }
            match kind {
                FieldKind::Text => {
                    text_n = n + 1;
                },
                FieldKind::Checkbox => {
                    check_n = n + 1;
                },
            }
        } else if name_in(&used, &names[i]) {
            let mut n: u32 = 2;
            loop
                invariant_except_break
                    names@[i as int] == names0[i as int],
                invariant
                    2 <= n,
                    u == views(used@),
                    u.len() == existing@.len() + i,
                    i < kinds@.len(),
                    captions.len() == kinds@.len(),
                    existing@.len() + kinds@.len() <= 0xFFFF_FFF0,
                    names@.len() == names0.len(),
                    forall|j: int| 0 <= j < names0.len() && j != i ==> names@[j] == names0[j],
                    names0.len() == captions.len(),
                    names0[i as int] == captions[i as int],
                    captions[i as int]@.len() != 0,
                    u.contains(captions[i as int]@),
                    forall|m: nat| 2 <= m < n ==> u.contains(#[trigger] suffixed(captions[i as int]@, m)),
                ensures
                    slot_named(kind, captions[i as int]@, names@[i as int]@, u),
                decreases u.len() + 2 - n,
            {
                let cand = suffixed_text(&names[i], n);
                let taken = name_in(&used, &cand);
                if !taken {
                    proof {
                        assert(slot_named(kind, captions[i as int]@, cand@, u));
                    }
                    names.set(i, cand);
                    break;
                }
                proof {
                    assert forall|a: int, b: int| 2 <= a < n + 1 && 2 <= b < n + 1
                        && #[trigger] suffixed(captions[i as int]@, a as nat) == #[trigger] suffixed(captions[i as int]@, b as nat)
                        implies a == b by {
                        lemma_suffixed_injective(captions[i as int]@, a as nat, b as nat);
                    }
                    lemma_room(u, |m: int| suffixed(captions[i as int]@, m as nat), 2, n as int + 1);
                }
                n = n + 1;
            }
        } else {
            proof {
                assert(slot_named(kind, captions[i as int]@, names@[i as int]@, u));
            }
        }
        let ghost before_push = names@;
        let ghost used_before = used@;
        let c = names[i].clone();
        used.push(c);
        proof {
            lemma_views_push(used_before, c);
            assert(views(names@).take(i as int + 1) =~= views(names@).take(i as int).push(names@[i as int]@));
            assert(views(names@).take(i as int) =~= views(names0).take(i as int)) by {
                assert forall|q: int| 0 <= q < i implies views(names@).take(i as int)[q] == views(names0).take(i as int)[q] by {
                    assert(names@[q] == names0[q]);
                }
            }
            assert(views(used@) =~= views(existing@) + views(names@).take(i as int + 1));
            assert forall|j: int| 0 <= j <= i implies #[trigger] slot_named(kinds@[j], captions[j]@, names@[j]@,
                views(existing@) + views(names@).take(j)) by {
                assert(views(names@).take(j) =~= views(names0).take(j)) by {
                    assert forall|q: int| 0 <= q < j implies views(names@).take(j)[q] == views(names0).take(j)[q] by {
                        assert(names@[q] == names0[q]);
                    }
                }
                if j < i {
                    assert(names@[j] == names0[j]);
                }
            }
            assert forall|m: nat| 1 <= m < text_n implies views(used@).contains(#[trigger] auto_name(FieldKind::Text, m)) by {
                if u.contains(auto_name(FieldKind::Text, m)) {
                    let q = choose|q: int| 0 <= q < u.len() && u[q] == auto_name(FieldKind::Text, m);
                    assert(views(used@)[q] == u[q]);
                } else {
                    assert(views(used@)[u.len() as int] == names@[i as int]@);
                }
            }
            assert forall|m: nat| 1 <= m < check_n implies views(used@).contains(#[trigger] auto_name(FieldKind::Checkbox, m)) by {
                if u.contains(auto_name(FieldKind::Checkbox, m)) {
                    let q = choose|q: int| 0 <= q < u.len() && u[q] == auto_name(FieldKind::Checkbox, m);
                    assert(views(used@)[q] == u[q]);
                } else {
                    assert(views(used@)[u.len() as int] == names@[i as int]@);
                }
            }
        }
        i = i + 1;
    }
}

} // verus!
