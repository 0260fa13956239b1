//! Turning the text found beside a form field into the field's name.

use vstd::prelude::*;
use vstd::string::StringExecFns;
use super::fields::push_char;

verus! {

/// The Unicode `White_Space` property, which `char::is_whitespace` tests.
pub open spec fn white_space(c: char) -> bool {
    let v = c as u32;
    ||| 0x09 <= v <= 0x0D
    ||| v == 0x20
    ||| v == 0x85
    ||| v == 0xA0
    ||| v == 0x1680
    ||| 0x2000 <= v <= 0x200A
    ||| v == 0x2028
    ||| v == 0x2029
    ||| v == 0x202F
    ||| v == 0x205F
    ||| v == 0x3000
}

/// The general category `Cc`, which `char::is_control` tests.
pub open spec fn control(c: char) -> bool {
    let v = c as u32;
    v <= 0x1F || 0x7F <= v <= 0x9F
}

/// Whether `char::is_alphanumeric` holds of the character.
pub uninterp spec fn alphanumeric(c: char) -> bool;

/// Whether the character is white space (see `white_space`).
pub fn is_space(c: char) -> (r: bool)
    ensures
        r == white_space(c),
{
    let v = c as u32;
    (0x09 <= v && v <= 0x0D) || v == 0x20 || v == 0x85 || v == 0xA0 || v == 0x1680
        || (0x2000 <= v && v <= 0x200A) || v == 0x2028 || v == 0x2029 || v == 0x202F
        || v == 0x205F || v == 0x3000
}

/// Whether the character is a control character (see `control`).
pub fn is_control(c: char) -> (r: bool)
    ensures
        r == control(c),
{
    let v = c as u32;
    v <= 0x1F || (0x7F <= v && v <= 0x9F)
}

/// `char::is_alphanumeric`: Unicode `Alphabetic` or `Numeric`; the tables are std's, and the
/// result is named by `alphanumeric`.
#[verifier::external_body]
fn is_alnum(c: char) -> (r: bool)
    ensures
        r == alphanumeric(c),
{
    c.is_alphanumeric()
}

/// The three sets of characters that the clean-up trims.
#[derive(Clone, Copy, Debug, PartialEq, Eq, Structural)]
pub enum Trim {
    /// White space.
    Space,
    /// Bullets and dashes in front of a label: `-`, `*`, `•`, `·`, and white space.
    Lead,
    /// Punctuation after a label: `:`, `.`, `*`, space and tab.
    Tail,
}

/// Whether the trim removes the character.
pub open spec fn trims(t: Trim, c: char) -> bool {
    match t {
        Trim::Space => white_space(c),
        Trim::Lead => c == '-' || c == '*' || (c as u32) == 0x2022 || (c as u32) == 0xB7 || white_space(c),
        Trim::Tail => c == ':' || c == '.' || c == '*' || c == ' ' || c == '\t',
    }
}

/// The first index at or after `i` whose character the trim keeps (or the length).
pub open spec fn front_cut(s: Seq<char>, t: Trim, i: nat) -> nat
    decreases s.len() - i,
{
    if i < s.len() && trims(t, s[i as int]) {
        front_cut(s, t, i + 1)
    } else {
        i
    }
}

/// The end of what remains when the trim is applied at the end, looking back from `j`.
pub open spec fn back_cut(s: Seq<char>, t: Trim, j: nat) -> nat
    decreases j,
{
    if 0 < j <= s.len() && trims(t, s[j - 1]) {
        back_cut(s, t, (j - 1) as nat)
    } else {
        j
    }
}

/// The text without its longest prefix of trimmed characters.
pub open spec fn trim_front(s: Seq<char>, t: Trim) -> Seq<char> {
    s.subrange(front_cut(s, t, 0) as int, s.len() as int)
}

/// The text without its longest suffix of trimmed characters.
pub open spec fn trim_back(s: Seq<char>, t: Trim) -> Seq<char> {
    s.subrange(0, back_cut(s, t, s.len()) as int)
}

/// Both ends trimmed.
pub open spec fn trim_both(s: Seq<char>, t: Trim) -> Seq<char> {
    trim_back(trim_front(s, t), t)
}

/// The label's core: white space trimmed, then leading bullets, then trailing punctuation,
/// then white space again.
pub open spec fn label_core(raw: Seq<char>) -> Seq<char> {
    trim_both(trim_back(trim_front(trim_both(raw, Trim::Space), Trim::Lead), Trim::Tail), Trim::Space)
}

/// The number of words: maximal runs of characters that are not white space.
pub open spec fn word_count(s: Seq<char>) -> nat
    decreases s.len(),
{
    if s.len() == 0 {
        0
    } else {
        word_count(s.drop_last()) + if !white_space(s.last()) && (s.len() == 1 || white_space(s[s.len() - 2])) {
            1nat
        } else {
            0nat
        }
    }
}

/// The text without control characters and with each `.` replaced by `_`.
pub open spec fn cleaned(s: Seq<char>) -> Seq<char>
    decreases s.len(),
{
    if s.len() == 0 {
        Seq::empty()
    } else if control(s.last()) {
        cleaned(s.drop_last())
    } else if s.last() == '.' {
        cleaned(s.drop_last()).push('_')
    } else {
        cleaned(s.drop_last()).push(s.last())
    }
}

/// The words of the text joined by single spaces.
pub open spec fn collapse(s: Seq<char>) -> Seq<char>
    decreases s.len(),
{
    if s.len() == 0 {
        Seq::empty()
    } else {
        let prev = collapse(s.drop_last());
        if white_space(s.last()) {
            prev
        } else if s.len() >= 2 && white_space(s[s.len() - 2]) && prev.len() > 0 {
            prev.push(' ').push(s.last())
        } else {
            prev.push(s.last())
        }
    }
}

/// The field name made from a label's core, given whether the core holds an alphanumeric
/// character: none without one, or with more than 8 words or 48 characters, or when nothing
/// is left after the clean-up.
pub open spec fn label_name(core: Seq<char>, any_alnum: bool) -> Option<Seq<char>> {
    if !any_alnum || word_count(core) > 8 || core.len() > 48 {
        None
    } else {
        let s = collapse(cleaned(core));
        if s.len() == 0 {
            None
        } else {
            Some(s)
        }
    }
}

/// Whether some character of the text is alphanumeric.
pub open spec fn has_alnum(s: Seq<char>) -> bool {
    exists|i: int| 0 <= i < s.len() && alphanumeric(#[trigger] s[i])
}

/// The field name a piece of label text gives, if it makes a usable one.
pub open spec fn sanitized(raw: Seq<char>) -> Option<Seq<char>> {
    label_name(label_core(raw), has_alnum(label_core(raw)))
}

/// Text as `collapse` leaves it: no white space at either end, never two white-space
/// characters in a row, and only spaces for white space.
pub open spec fn collapsed_form(s: Seq<char>) -> bool {
    &&& s.len() > 0 ==> !white_space(s[0]) && !white_space(s.last())
    &&& forall|i: int| 0 <= i < s.len() && white_space(#[trigger] s[i]) ==> s[i] == ' ' && 0 < i < s.len() - 1
        && !white_space(s[i + 1])
}

proof fn lemma_collapse_form(t: Seq<char>)
    ensures
        collapsed_form(collapse(t)),
        collapse(t).len() <= t.len(),
        t.len() > 0 && white_space(t.last()) ==> collapse(t).len() < t.len(),
        t.len() > 0 && !white_space(t.last()) ==> collapse(t).len() > 0 && collapse(t).last() == t.last(),
        t.len() > 0 && !white_space(t[0]) ==> collapse(t).len() > 0 && collapse(t)[0] == t[0],
        word_count(collapse(t)) == word_count(t),
        forall|i: int| 0 <= i < t.len() && !white_space(t[i]) ==> collapse(t).contains(#[trigger] t[i]),
        forall|i: int| 0 <= i < collapse(t).len() ==> #[trigger] collapse(t)[i] == ' ' || t.contains(collapse(t)[i]),
    decreases t.len(),
{
    if t.len() > 0 {
        let p = t.drop_last();
        let c = t.last();
        lemma_collapse_form(p);
        let prev = collapse(p);
        assert(forall|i: int| 0 <= i < p.len() ==> p[i] == t[i]);
        if white_space(c) {
            assert(collapse(t) == prev);
            assert forall|i: int| 0 <= i < collapse(t).len() implies #[trigger] collapse(t)[i] == ' ' || t.contains(collapse(t)[i]) by {
                if collapse(t)[i] != ' ' {
                    assert(p.contains(prev[i]));
                    let j = choose|j: int| 0 <= j < p.len() && p[j] == prev[i];
                    assert(t[j] == prev[i]);
                }
            }
            assert forall|i: int| 0 <= i < t.len() && !white_space(t[i]) implies collapse(t).contains(#[trigger] t[i]) by {
                assert(i < p.len());
                assert(p[i] == t[i]);
            }
            if t.len() > 1 {
                assert(t[0] == p[0]);
            }
        } else {
            let r = collapse(t);
            if t.len() >= 2 && white_space(t[t.len() - 2]) && prev.len() > 0 {
                assert(r == prev.push(' ').push(c));
                assert(prev.push(' ').push(c).drop_last() =~= prev.push(' '));
                assert(prev.push(' ').drop_last() =~= prev);
                assert(word_count(prev.push(' ')) == word_count(prev));
                assert(p.last() == t[t.len() - 2]);
            } else {
                assert(r == prev.push(c));
                assert(prev.push(c).drop_last() == prev);
                if prev.len() > 0 {
                    assert(!white_space(prev.last()));
                }
                if t.len() >= 2 && prev.len() == 0 {
                    assert(word_count(p) == 0);
                }
            }
            assert forall|i: int| 0 <= i < r.len() && white_space(#[trigger] r[i]) implies r[i] == ' ' && 0 < i < r.len() - 1
                && !white_space(r[i + 1]) by {
                if i < prev.len() {
                    assert(r[i] == prev[i]);
                    if i + 1 < prev.len() {
                        assert(r[i + 1] == prev[i + 1]);
                    }
                }
            }
            assert forall|i: int| 0 <= i < r.len() implies #[trigger] r[i] == ' ' || t.contains(r[i]) by {
                if i < prev.len() && r[i] != ' ' {
                    assert(r[i] == prev[i]);
                    assert(p.contains(prev[i]));
                    let j = choose|j: int| 0 <= j < p.len() && p[j] == prev[i];
                    assert(t[j] == prev[i]);
                } else if r[i] != ' ' {
                    assert(r[i] == c);
                    assert(t[t.len() - 1] == c);
                }
            }
            assert forall|i: int| 0 <= i < t.len() && !white_space(t[i]) implies r.contains(#[trigger] t[i]) by {
                if i < p.len() {
                    assert(p[i] == t[i]);
                    assert(prev.contains(p[i]));
                    let j = choose|j: int| 0 <= j < prev.len() && prev[j] == p[i];
                    assert(r[j] == prev[j]);
                } else {
                    assert(r[r.len() - 1] == c);
                }
            }
            if t.len() > 1 && !white_space(t[0]) {
                assert(p[0] == t[0]);
                assert(r[0] == prev[0]);
            }
        }
    }
}

proof fn lemma_collapse_fixed(t: Seq<char>)
    requires
        t.len() > 0 ==> !white_space(t[0]),
        forall|i: int| 0 <= i < t.len() && white_space(#[trigger] t[i]) ==> t[i] == ' ' && (i + 1 < t.len() ==> !white_space(t[i + 1])),
    ensures
        collapse(t) == (if t.len() > 0 && white_space(t.last()) { t.drop_last() } else { t }),
    decreases t.len(),
{
    if t.len() > 0 {
        let p = t.drop_last();
        let c = t.last();
        assert forall|i: int| 0 <= i < p.len() && white_space(#[trigger] p[i]) implies p[i] == ' ' && (i + 1 < p.len() ==> !white_space(p[i + 1])) by {
            assert(p[i] == t[i]);
            if i + 1 < p.len() {
                assert(p[i + 1] == t[i + 1]);
            }
        }
        if p.len() > 0 {
            assert(p[0] == t[0]);
        }
        lemma_collapse_fixed(p);
        if white_space(c) {
            if p.len() > 0 {
                assert(!white_space(p.last())) by {
                    assert(p.last() == t[t.len() - 2]);
                }
            }
        } else if p.len() > 0 && white_space(p.last()) {
            assert(t[t.len() - 2] == p.last());
            assert(p.last() == ' ');
            assert(p.len() >= 2);
            assert(p.drop_last().push(' ').push(c) =~= t);
        } else {
            assert(p.push(c) =~= t);
        }
    }
}

proof fn lemma_front_cut(s: Seq<char>, t: Trim, i: nat)
    requires
        i <= s.len(),
    ensures
        i <= front_cut(s, t, i) <= s.len(),
        front_cut(s, t, i) < s.len() ==> !trims(t, s[front_cut(s, t, i) as int]),
    decreases s.len() - i,
{
    if i < s.len() && trims(t, s[i as int]) {
        lemma_front_cut(s, t, i + 1);
    }
}

proof fn lemma_back_cut(s: Seq<char>, t: Trim, j: nat)
    requires
        j <= s.len(),
    ensures
        back_cut(s, t, j) <= j,
        back_cut(s, t, j) > 0 ==> !trims(t, s[back_cut(s, t, j) - 1]),
    decreases j,
{
    if 0 < j <= s.len() && trims(t, s[j - 1]) {
        lemma_back_cut(s, t, (j - 1) as nat);
    }
}

/// No control characters, no `.`, and only spaces for white space.
pub open spec fn plain_chars(s: Seq<char>) -> bool {
    forall|i: int| 0 <= i < s.len() ==> !control(#[trigger] s[i]) && (white_space(s[i]) ==> s[i] == ' ')
}

proof fn lemma_trims_keep_plain(s: Seq<char>, t: Trim)
    requires
        plain_chars(s),
    ensures
        plain_chars(trim_front(s, t)),
        plain_chars(trim_back(s, t)),
        trim_front(s, t).len() > 0 ==> !trims(t, trim_front(s, t)[0]),
        trim_back(s, t).len() > 0 ==> !trims(t, trim_back(s, t).last()),
        trim_back(s, t).len() > 0 ==> trim_back(s, t)[0] == s[0],
        s.len() > 0 && !trims(t, s[0]) ==> trim_front(s, t) == s,
        s.len() > 0 && !trims(t, s.last()) ==> trim_back(s, t) == s,
{
    lemma_front_cut(s, t, 0);
    lemma_back_cut(s, t, s.len());
    let a = front_cut(s, t, 0);
    let b = back_cut(s, t, s.len());
    assert forall|i: int| 0 <= i < trim_front(s, t).len() implies !control(#[trigger] trim_front(s, t)[i])
        && (white_space(trim_front(s, t)[i]) ==> trim_front(s, t)[i] == ' ') by {
        assert(trim_front(s, t)[i] == s[a + i]);
    }
    assert forall|i: int| 0 <= i < trim_back(s, t).len() implies !control(#[trigger] trim_back(s, t)[i])
        && (white_space(trim_back(s, t)[i]) ==> trim_back(s, t)[i] == ' ') by {
        assert(trim_back(s, t)[i] == s[i]);
    }
    if s.len() > 0 && !trims(t, s[0]) {
        assert(a == 0);
        assert(trim_front(s, t) =~= s);
    }
    if s.len() > 0 && !trims(t, s.last()) {
        assert(b == s.len());
        assert(trim_back(s, t) =~= s);
    }
}

proof fn lemma_cleaned_plain(x: Seq<char>)
    requires
        plain_chars(x),
    ensures
        cleaned(x).len() == x.len(),
        forall|i: int| 0 <= i < x.len() ==> #[trigger] cleaned(x)[i] == (if x[i] == '.' { '_' } else { x[i] }),
    decreases x.len(),
{
    if x.len() > 0 {
        let p = x.drop_last();
        assert forall|i: int| 0 <= i < p.len() implies !control(#[trigger] p[i]) && (white_space(p[i]) ==> p[i] == ' ') by {
            assert(p[i] == x[i]);
        }
        lemma_cleaned_plain(p);
        assert forall|i: int| 0 <= i < x.len() implies #[trigger] cleaned(x)[i] == (if x[i] == '.' { '_' } else { x[i] }) by {
            if i < p.len() {
                assert(p[i] == x[i]);
            }
        }
    }
}

proof fn lemma_word_count_same(a: Seq<char>, b: Seq<char>)
    requires
        a.len() == b.len(),
        forall|i: int| 0 <= i < a.len() ==> white_space(#[trigger] a[i]) == white_space(b[i]),
    ensures
        word_count(a) == word_count(b),
    decreases a.len(),
{
    if a.len() > 0 {
        assert forall|i: int| 0 <= i < a.drop_last().len() implies white_space(#[trigger] a.drop_last()[i])
            == white_space(b.drop_last()[i]) by {
            assert(a.drop_last()[i] == a[i] && b.drop_last()[i] == b[i]);
        }
        lemma_word_count_same(a.drop_last(), b.drop_last());
        if a.len() >= 2 {
            assert(white_space(a[a.len() - 2]) == white_space(b[b.len() - 2]));
        }
    }
}

/// Sanitizing a name that `sanitize` made gives it back, for label text without control
/// characters and with only spaces for white space (as std has it, neither a space nor `.`
/// is alphanumeric). The name is non-empty, of at most 48 characters and 8 words, has an
/// alphanumeric character, no `.`, no white space at either end, and single spaces between
/// words; e.g. `sanitize("Name:")` is `Some("Name")`.
pub proof fn lemma_sanitize_idempotent(raw: Seq<char>)
    requires
        sanitized(raw) is Some,
        plain_chars(raw),
        !alphanumeric(' '),
        !alphanumeric('.'),
    ensures
        sanitized(sanitized(raw)->0) == sanitized(raw),
        ({
            let s = sanitized(raw)->0;
            &&& 0 < s.len() <= 48
            &&& word_count(s) <= 8
            &&& has_alnum(s)
            &&& collapsed_form(s)
            &&& forall|i: int| 0 <= i < s.len() ==> #[trigger] s[i] != '.'
        }),
{
    let a0 = trim_front(raw, Trim::Space);
    lemma_trims_keep_plain(raw, Trim::Space);
    let a = trim_back(a0, Trim::Space);
    lemma_trims_keep_plain(a0, Trim::Space);
    let b = trim_front(a, Trim::Lead);
    lemma_trims_keep_plain(a, Trim::Lead);
    let c = trim_back(b, Trim::Tail);
    lemma_trims_keep_plain(b, Trim::Tail);
    let d = trim_front(c, Trim::Space);
    lemma_trims_keep_plain(c, Trim::Space);
    let core = trim_back(d, Trim::Space);
    lemma_trims_keep_plain(d, Trim::Space);
    assert(core == label_core(raw));
    let t = cleaned(core);
    let s = collapse(t);
    assert(sanitized(raw) == Some(s));
    assert(core.len() > 0);
    // The core is `c`: it starts with neither a bullet nor white space, and ends with no
    // trailing punctuation, which takes in the only white space left, the space.
    assert(c.len() > 0) by {
        assert(d.len() > 0);
    }
    assert(c[0] == b[0]);
    assert(!trims(Trim::Lead, c[0]));
    assert(d == c);
    assert(!trims(Trim::Tail, c.last()));
    assert(!white_space(c.last()));
    assert(core == c);
    lemma_cleaned_plain(core);
    lemma_word_count_same(core, t);
    lemma_collapse_form(t);
    assert(!white_space(t[0]) && !white_space(t.last()));
    assert(s.len() > 0);
    assert(s[0] == t[0] && s.last() == t.last());
    assert(t.last() == core.last());
    // s has no `.` nor control characters, and only spaces for white space.
    assert forall|i: int| 0 <= i < s.len() implies #[trigger] s[i] != '.' && !control(s[i])
        && (white_space(s[i]) ==> s[i] == ' ') by {
        if s[i] != ' ' {
            let j = choose|j: int| 0 <= j < t.len() && t[j] == s[i];
            assert(t[j] == (if core[j] == '.' { '_' } else { core[j] }));
        }
    }
    // An alphanumeric character of the core is kept.
    let w = choose|w: int| 0 <= w < core.len() && alphanumeric(#[trigger] core[w]);
    assert(t[w] == core[w]);
    assert(s.contains(t[w]));
    let wi = choose|wi: int| 0 <= wi < s.len() && s[wi] == t[w];
    assert(has_alnum(s));
    // s is its own core and its own clean-up.
    assert(plain_chars(s));
    lemma_trims_keep_plain(s, Trim::Space);
    lemma_trims_keep_plain(s, Trim::Lead);
    lemma_trims_keep_plain(s, Trim::Tail);
    assert(trim_front(s, Trim::Space) == s);
    assert(trim_back(s, Trim::Space) == s);
    assert(trim_front(s, Trim::Lead) == s);
    assert(trim_back(s, Trim::Tail) == s);
    assert(label_core(s) == s);
    lemma_cleaned_plain(s);
    assert(cleaned(s) =~= s);
    lemma_collapse_fixed(s);
    assert(collapse(s) == s);
}

fn chars_of(s: &str) -> (v: Vec<char>)
    ensures
        v@ == s@,
{
    let n = s.unicode_len();
    let mut v: Vec<char> = Vec::new();
    let mut i: usize = 0;
    while i < n
        invariant
            i <= n,
            n == s@.len(),
            v@ == s@.take(i as int),
        decreases n - i,
    {
        v.push(s.get_char(i));
        i = i + 1;
        proof {
            assert(v@ =~= s@.take(i as int));
        }
    }
    proof {
        assert(s@.take(n as int) =~= s@);
    }
    v
}

fn string_of(v: &Vec<char>) -> (s: String)
    ensures
        s@ == v@,
{
    let mut s = String::new();
    let mut i: usize = 0;
    while i < v.len()
        invariant
            i <= v.len(),
            s@ == v@.take(i as int),
        decreases v.len() - i,
    {
        push_char(&mut s, v[i]);
        i = i + 1;
        proof {
            assert(s@ =~= v@.take(i as int));
        }
    }
    proof {
        assert(v@.take(v.len() as int) =~= v@);
    }
    s
}

fn is_trimmed(t: Trim, c: char) -> (r: bool)
    ensures
        r == trims(t, c),
{
    match t {
        Trim::Space => is_space(c),
        Trim::Lead => c == '-' || c == '*' || (c as u32) == 0x2022 || (c as u32) == 0xB7 || is_space(c),
        Trim::Tail => c == ':' || c == '.' || c == '*' || c == ' ' || c == '\t',
    }
}

fn copy_range(s: &Vec<char>, a: usize, b: usize) -> (r: Vec<char>)
    requires
        a <= b <= s.len(),
    ensures
        r@ == s@.subrange(a as int, b as int),
{
    let mut r: Vec<char> = Vec::new();
    let mut i: usize = a;
    while i < b
        invariant
            a <= i <= b,
            b <= s.len(),
            r@ == s@.subrange(a as int, i as int),
        decreases b - i,
    {
        r.push(s[i]);
        i = i + 1;
        proof {
            assert(r@ =~= s@.subrange(a as int, i as int));
        }
    }
    r
}

fn cut_front(s: &Vec<char>, t: Trim) -> (r: Vec<char>)
    ensures
        r@ == trim_front(s@, t),
{
    let mut i: usize = 0;
    while i < s.len() && is_trimmed(t, s[i])
        invariant
            i <= s.len(),
            front_cut(s@, t, i as nat) == front_cut(s@, t, 0),
        decreases s.len() - i,
    {
        i = i + 1;
    }
    copy_range(s, i, s.len())
}

fn cut_back(s: &Vec<char>, t: Trim) -> (r: Vec<char>)
    ensures
        r@ == trim_back(s@, t),
{
    let mut j: usize = s.len();
    while j > 0 && is_trimmed(t, s[j - 1])
        invariant
            j <= s.len(),
            back_cut(s@, t, j as nat) == back_cut(s@, t, s.len() as nat),
        decreases j,
    {
        j = j - 1;
    }
    copy_range(s, 0, j)
}

fn count_words(s: &Vec<char>) -> (n: usize)
    ensures
        n == word_count(s@),
{
    let mut n: usize = 0;
    let mut i: usize = 0;
    while i < s.len()
        invariant
            i <= s.len(),
            n == word_count(s@.take(i as int)),
            n <= i,
        decreases s.len() - i,
    {
        let starts = !is_space(s[i]) && (i == 0 || is_space(s[i - 1]));
        proof {
            let p = s@.take(i as int + 1);
            assert(p.drop_last() =~= s@.take(i as int));
            assert(p.last() == s@[i as int]);
            if i > 0 {
                assert(p[p.len() - 2] == s@[i - 1]);
            }
        }
        if starts {
            n = n + 1;
        }
        i = i + 1;
    }
    proof {
        assert(s@.take(s.len() as int) =~= s@);
    }
    n
}

fn clean(s: &Vec<char>) -> (r: Vec<char>)
    ensures
        r@ == cleaned(s@),
{
    let mut r: Vec<char> = Vec::new();
    let mut i: usize = 0;
    while i < s.len()
        invariant
            i <= s.len(),
            r@ == cleaned(s@.take(i as int)),
        decreases s.len() - i,
    {
        let c = s[i];
        proof {
            let p = s@.take(i as int + 1);
            assert(p.drop_last() =~= s@.take(i as int));
            assert(p.last() == c);
        }
        if is_control(c) {
        } else if c == '.' {
            r.push('_');
        } else {
            r.push(c);
        }
        i = i + 1;
    }
    proof {
        assert(s@.take(s.len() as int) =~= s@);
    }
    r
}

fn collapse_words(s: &Vec<char>) -> (r: Vec<char>)
    ensures
        r@ == collapse(s@),
{
    let mut r: Vec<char> = Vec::new();
    let mut i: usize = 0;
    while i < s.len()
        invariant
            i <= s.len(),
            r@ == collapse(s@.take(i as int)),
        decreases s.len() - i,
    {
        let c = s[i];
        proof {
            let p = s@.take(i as int + 1);
            assert(p.drop_last() =~= s@.take(i as int));
            assert(p.last() == c);
            if i > 0 {
                assert(p[p.len() - 2] == s@[i - 1]);
            }
        }
        if !is_space(c) {
            if i > 0 && is_space(s[i - 1]) && r.len() > 0 {
                r.push(' ');
            }
            r.push(c);
        }
        i = i + 1;
    }
    proof {
        assert(s@.take(s.len() as int) =~= s@);
    }
    r
}

fn any_alnum(s: &Vec<char>) -> (r: bool)
    ensures
        r == has_alnum(s@),
{
    let mut i: usize = 0;
    while i < s.len()
        invariant
            i <= s.len(),
            forall|k: int| 0 <= k < i ==> !alphanumeric(#[trigger] s@[k]),
        decreases s.len() - i,
    {
        if is_alnum(s[i]) {
            return true;
        }
        i = i + 1;
    }
    false
}

/// The field name made from a label's core (see `label_name`), given whether the core
/// holds an alphanumeric character.
pub fn name_from_core(core: &Vec<char>, any_alnum: bool) -> (r: Option<String>)
    ensures
        match r {
            Some(s) => label_name(core@, any_alnum) == Some(s@),
            None => label_name(core@, any_alnum) is None,
        },
{
    if !any_alnum {
        return None;
    }
    let words = count_words(core);
    if words > 8 || core.len() > 48 {
        return None;
    }
    let c = clean(core);
    let s = collapse_words(&c);
    if s.len() == 0 {
        None
    } else {
        Some(string_of(&s))
    }
}

/// The core of a piece of label text (see `label_core`).
pub fn core_of(raw: &str) -> (core: Vec<char>)
    ensures
        core@ == label_core(raw@),
{
    let cs = chars_of(raw);
    let a = cut_front(&cs, Trim::Space);
    let a = cut_back(&a, Trim::Space);
    let b = cut_front(&a, Trim::Lead);
    let c = cut_back(&b, Trim::Tail);
    let d = cut_front(&c, Trim::Space);
    cut_back(&d, Trim::Space)
}

/// The field name a piece of label text gives (see `sanitized`): its core, when that has an
/// alphanumeric character, at most 8 words and 48 characters, cleaned up.
pub fn sanitize(raw: &str) -> (r: Option<String>)
    ensures
        match r {
            Some(s) => sanitized(raw@) == Some(s@),
            None => sanitized(raw@) is None,
        },
{
    let core = core_of(raw);
    let has = any_alnum(&core);
    name_from_core(&core, has)
}

/// A run of at least three underscores, once white space is trimmed: a blank to fill in.
pub open spec fn underscore_blank(text: Seq<char>) -> bool {
    let t = trim_both(text, Trim::Space);
    t.len() >= 3 && forall|i: int| 0 <= i < t.len() ==> t[i] == '_'
}

/// Text that cannot name a field: nothing but white space, or a blank to fill in.
pub open spec fn unusable_label(text: Seq<char>) -> bool {
    trim_both(text, Trim::Space).len() == 0 || underscore_blank(trim_both(text, Trim::Space))
}

fn trimmed_chars(v: &Vec<char>) -> (t: Vec<char>)
    ensures
        t@ == trim_both(v@, Trim::Space),
{
    let a = cut_front(v, Trim::Space);
    cut_back(&a, Trim::Space)
}

fn all_underscores(t: &Vec<char>) -> (r: bool)
    ensures
        r == (forall|i: int| 0 <= i < t@.len() ==> t@[i] == '_'),
{
    let mut i: usize = 0;
    while i < t.len()
        invariant
            i <= t.len(),
            forall|j: int| 0 <= j < i ==> t@[j] == '_',
        decreases t.len() - i,
    {
        if t[i] != '_' {
            return false;
        }
        i = i + 1;
    }
    true
}

/// Whether the text is a blank to fill in (see `underscore_blank`).
pub fn underscore_slot(text: &str) -> (r: bool)
    ensures
        r == underscore_blank(text@),
{
    let v = chars_of(text);
    let t = trimmed_chars(&v);
    t.len() >= 3 && all_underscores(&t)
}

/// Whether the text cannot name a field (see `unusable_label`).
pub fn bad_label_text(text: &str) -> (r: bool)
    ensures
        r == unusable_label(text@),
{
    let v = chars_of(text);
    let t = trimmed_chars(&v);
    if t.len() == 0 {
        return true;
    }
    let u = trimmed_chars(&t);
    u.len() >= 3 && all_underscores(&u)
}

} // verus!
